//! Identities, symbols, values and tuples, with the order of their sort keys.

use crate::bytes::{be_bytes, lemma_be_bytes_injective, lemma_be_bytes_len, lemma_pow256_values,
    push_be};
use vstd::prelude::*;

verus! {

/// The largest raw identity.
pub const IDENTITY_MAX: u64 = 0x00ff_ffff_ffff_ffff;

/// The smallest integer that a value holds.
pub const INT_MIN: i64 = -0x0080_0000_0000_0000;

/// The largest integer that a value holds.
pub const INT_MAX: i64 = 0x007f_ffff_ffff_ffff;

/// The identity of a relation, a rule or any other object.
#[derive(Clone, Copy, Debug, PartialEq, Eq, Structural)]
pub struct Identity {
    raw: u64,
}

impl View for Identity {
    type V = u64;

    closed spec fn view(&self) -> u64 {
        self.raw
    }
}

impl Identity {
    #[verifier::type_invariant]
    spec fn within_range(self) -> bool {
        self.raw <= IDENTITY_MAX
    }

    /// The identity with the given raw number, where it is in range.
    pub fn new(raw: u64) -> (identity: Option<Identity>)
        ensures
            identity is Some <==> raw <= IDENTITY_MAX,
            identity matches Some(found) ==> found@ == raw,
    {
        if raw <= IDENTITY_MAX {
            Some(Identity { raw })
        } else {
            None
        }
    }

    /// The raw number.
    pub fn raw(&self) -> (raw: u64)
        ensures
            raw == self@,
            raw <= IDENTITY_MAX,
    {
        proof {
            use_type_invariant(self);
        }
        self.raw
    }

    /// Whether two identities are the same.
    pub fn same(&self, other: &Identity) -> (result: bool)
        ensures
            result == (self@ == other@),
    {
        self.raw == other.raw
    }
}

/// A name.
#[derive(Debug)]
pub struct Symbol {
    name: String,
}

impl View for Symbol {
    type V = Seq<char>;

    closed spec fn view(&self) -> Seq<char> {
        self.name@
    }
}

impl Clone for Symbol {
    fn clone(&self) -> (copy: Symbol)
        ensures
            copy@ == self@,
    {
        Symbol { name: self.name.clone() }
    }
}

impl Symbol {
    /// The symbol with the given name.
    pub fn intern(name: &str) -> (symbol: Symbol)
        ensures
            symbol@ == name@,
    {
        Symbol { name: name.to_owned() }
    }

    /// The name of the symbol.
    pub fn name(&self) -> (name: &str)
        ensures
            name@ == self@,
    {
        self.name.as_str()
    }

    /// Whether two symbols have the same name.
    pub fn same(&self, other: &Symbol) -> (result: bool)
        ensures
            result == (self@ == other@),
    {
        self.name == other.name
    }

    /// Whether the symbol has the given name.
    pub fn is_named(&self, name: &str) -> (result: bool)
        ensures
            result == (self@ == name@),
    {
        self.name == name.to_owned()
    }
}

/// A value of the language.
#[derive(Debug)]
pub enum Value {
    Nothing,
    Bool(bool),
    Int(i64),
    Identity(Identity),
    Symbol(Symbol),
    String(String),
    List(Vec<Value>),
    Mapping(Vec<(Value, Value)>),
    OptionNone,
    OptionSome(Box<Value>),
    Frob(Identity, Box<Value>),
    Error(Symbol, Option<String>, Box<Value>),
    Capability(u64),
    /// A floating number, by its place in the order of floating numbers.
    Float(u64),
    Bytes(Vec<u8>),
    /// A relation: the symbols that name its columns, and its rows as lists.
    Relation(Vec<Value>, Vec<Value>),
}

/// What a value is, apart from how it is stored.
pub enum ValueView {
    Nothing,
    Bool(bool),
    Int(i64),
    Identity(u64),
    Symbol(Seq<char>),
    String(Seq<char>),
    List(Seq<ValueView>),
    Mapping(Seq<(ValueView, ValueView)>),
    OptionNone,
    OptionSome(Box<ValueView>),
    Frob(u64, Box<ValueView>),
    Error(Seq<char>, Option<Seq<char>>, Box<ValueView>),
    Capability(u64),
    Float(u64),
    Bytes(Seq<u8>),
    Relation(Seq<ValueView>, Seq<ValueView>),
}

/// What `value` is, apart from how it is stored.
pub open spec fn value_view(value: Value) -> ValueView
    decreases value,
{
    match value {
        Value::Nothing => ValueView::Nothing,
        Value::Bool(b) => ValueView::Bool(b),
        Value::Int(i) => ValueView::Int(i),
        Value::Identity(id) => ValueView::Identity(id@),
        Value::Symbol(s) => ValueView::Symbol(s@),
        Value::String(s) => ValueView::String(s@),
        Value::List(items) => ValueView::List(
            Seq::new(
                items@.len(),
                |i: int|
                    if 0 <= i < items@.len() {
                        value_view(items@[i])
                    } else {
                        ValueView::Nothing
                    },
            ),
        ),
        Value::Mapping(entries) => ValueView::Mapping(
            Seq::new(
                entries@.len(),
                |i: int|
                    if 0 <= i < entries@.len() {
                        (value_view(entries@[i].0), value_view(entries@[i].1))
                    } else {
                        (ValueView::Nothing, ValueView::Nothing)
                    },
            ),
        ),
        Value::OptionNone => ValueView::OptionNone,
        Value::OptionSome(v) => ValueView::OptionSome(Box::new(value_view(*v))),
        Value::Frob(id, v) => ValueView::Frob(id@, Box::new(value_view(*v))),
        Value::Error(code, message, v) => ValueView::Error(
            code@,
            text_view(message),
            Box::new(value_view(*v)),
        ),
        Value::Capability(c) => ValueView::Capability(c),
        Value::Float(place) => ValueView::Float(place),
        Value::Bytes(bytes) => ValueView::Bytes(bytes@),
        Value::Relation(names, tuples) => ValueView::Relation(
            Seq::new(
                names@.len(),
                |i: int|
                    if 0 <= i < names@.len() {
                        value_view(names@[i])
                    } else {
                        ValueView::Nothing
                    },
            ),
            Seq::new(
                tuples@.len(),
                |i: int|
                    if 0 <= i < tuples@.len() {
                        value_view(tuples@[i])
                    } else {
                        ValueView::Nothing
                    },
            ),
        ),
    }
}

/// The characters of an optional text.
pub open spec fn text_view(text: Option<String>) -> Option<Seq<char>> {
    match text {
        Some(text) => Some(text@),
        None => None,
    }
}

impl View for Value {
    type V = ValueView;

    open spec fn view(&self) -> ValueView {
        value_view(*self)
    }
}

/// The views of a sequence of values.
pub open spec fn views(values: Seq<Value>) -> Seq<ValueView> {
    Seq::new(values.len(), |i: int| value_view(values[i]))
}

/// The views of a sequence of pairs of values.
pub open spec fn pair_views(pairs: Seq<(Value, Value)>) -> Seq<(ValueView, ValueView)> {
    Seq::new(pairs.len(), |i: int| (value_view(pairs[i].0), value_view(pairs[i].1)))
}

/// The views of a sequence of optional values.
pub open spec fn option_views(values: Seq<Option<Value>>) -> Seq<Option<ValueView>> {
    Seq::new(values.len(), |i: int| option_view(values[i]))
}

/// The view of an optional value.
pub open spec fn option_view(value: Option<Value>) -> Option<ValueView> {
    match value {
        Some(value) => Some(value_view(value)),
        None => None,
    }
}

/// The bytes that spell a text in a sort key: three for each character, counted
/// from one, and a mark for the end.
pub open spec fn text_key(text: Seq<char>) -> Seq<u8>
    decreases text.len(),
{
    if text.len() == 0 {
        be_bytes(0, 3)
    } else {
        be_bytes((text[0] as nat + 1) as nat, 3) + text_key(text.drop_first())
    }
}

/// Bytes as characters.
pub open spec fn byte_chars(bytes: Seq<u8>) -> Seq<char> {
    Seq::new(bytes.len(), |i: int| bytes[i] as char)
}

/// Bytes that are the same as characters are the same.
pub proof fn lemma_byte_chars_unique(a: Seq<u8>, b: Seq<u8>)
    requires
        byte_chars(a) == byte_chars(b),
    ensures
        a == b,
{
    assert(byte_chars(a).len() == a.len());
    assert(byte_chars(b).len() == b.len());
    assert forall|i: int| 0 <= i < a.len() implies a[i] == b[i] by {
        assert(byte_chars(a)[i] as int == a[i] as int);
        assert(byte_chars(b)[i] as int == b[i] as int);
    }
    assert(a =~= b);
}

/// The sort key of a value.
pub open spec fn value_key(value: ValueView) -> Seq<u8>
    decreases value, 0nat,
{
    match value {
        ValueView::Nothing => seq![0u8],
        ValueView::Bool(b) => seq![1u8, if b { 1u8 } else { 0u8 }],
        ValueView::Int(i) => seq![2u8] + be_bytes((i + 0x8000_0000_0000_0000) as nat, 8),
        ValueView::Identity(id) => seq![3u8] + be_bytes(id as nat, 8),
        ValueView::Symbol(s) => seq![4u8] + text_key(s),
        ValueView::String(s) => seq![5u8] + text_key(s),
        ValueView::List(items) => seq![6u8] + list_key(items),
        ValueView::Mapping(entries) => seq![7u8] + entries_key(entries),
        ValueView::OptionNone => seq![8u8],
        ValueView::OptionSome(v) => seq![9u8] + value_key(*v),
        ValueView::Frob(id, v) => seq![10u8] + be_bytes(id as nat, 8) + value_key(*v),
        ValueView::Error(code, message, v) => seq![11u8] + text_key(code) + message_key(message)
            + value_key(*v),
        ValueView::Capability(c) => seq![12u8] + be_bytes(c as nat, 8),
        ValueView::Float(place) => seq![13u8] + be_bytes(place as nat, 8),
        ValueView::Bytes(bytes) => seq![14u8] + text_key(byte_chars(bytes)),
        ValueView::Relation(names, tuples) => seq![15u8] + list_key(names) + list_key(tuples),
    }
}

/// The sort key of an optional text.
pub open spec fn message_key(message: Option<Seq<char>>) -> Seq<u8> {
    match message {
        None => seq![0u8],
        Some(text) => seq![1u8] + text_key(text),
    }
}

/// The sort key of the items of a list.
pub open spec fn list_key(items: Seq<ValueView>) -> Seq<u8>
    decreases items, 1nat,
{
    if items.len() == 0 {
        seq![0u8]
    } else {
        seq![1u8] + value_key(items[0]) + list_key(items.subrange(1, items.len() as int))
    }
}

/// The sort key of the entries of a mapping.
pub open spec fn entries_key(entries: Seq<(ValueView, ValueView)>) -> Seq<u8>
    decreases entries, 1nat,
{
    if entries.len() == 0 {
        seq![0u8]
    } else {
        seq![1u8] + value_key(entries[0].0) + value_key(entries[0].1) + entries_key(
            entries.subrange(1, entries.len() as int),
        )
    }
}

/// The sort keys of several values, one after the other.
pub open spec fn values_key(values: Seq<ValueView>) -> Seq<u8>
    decreases values.len(),
{
    if values.len() == 0 {
        Seq::empty()
    } else {
        value_key(values[0]) + values_key(values.subrange(1, values.len() as int))
    }
}

proof fn lemma_split(p: Seq<u8>, q: Seq<u8>, x: Seq<u8>, y: Seq<u8>)
    requires
        p.len() == q.len(),
        p + x == q + y,
    ensures
        p == q,
        x == y,
{
    assert(p =~= (p + x).take(p.len() as int));
    assert(q =~= (q + y).take(q.len() as int));
    assert(x =~= (p + x).skip(p.len() as int));
    assert(y =~= (q + y).skip(q.len() as int));
}

proof fn lemma_be8_unique(a: nat, b: nat, x: Seq<u8>, y: Seq<u8>)
    requires
        a <= u64::MAX,
        b <= u64::MAX,
        be_bytes(a, 8) + x == be_bytes(b, 8) + y,
    ensures
        a == b,
        x == y,
{
    lemma_be_bytes_len(a, 8);
    lemma_be_bytes_len(b, 8);
    lemma_split(be_bytes(a, 8), be_bytes(b, 8), x, y);
    lemma_pow256_values();
    lemma_be_bytes_injective(a, b, 8);
}

/// The code of a character is below 0x110000.
pub proof fn lemma_char_code(c: char)
    ensures
        0 <= c as int <= 0x10_ffff,
        c as nat == c as int,
        c as u32 == c as int,
{
}

/// Characters with the same code are equal.
pub proof fn lemma_char_ext(a: char, b: char)
    requires
        a as int == b as int,
    ensures
        a == b,
{
}

/// Where two texts' keys start alike, the texts are equal.
pub proof fn lemma_text_key_unique(s: Seq<char>, t: Seq<char>, x: Seq<u8>, y: Seq<u8>)
    requires
        text_key(s) + x == text_key(t) + y,
    ensures
        s == t,
        x == y,
    decreases s.len(),
{
    let a: nat = if s.len() == 0 { 0 } else { (s[0] as nat + 1) as nat };
    let b: nat = if t.len() == 0 { 0 } else { (t[0] as nat + 1) as nat };
    let x2 = if s.len() == 0 { x } else { text_key(s.drop_first()) + x };
    let y2 = if t.len() == 0 { y } else { text_key(t.drop_first()) + y };
    lemma_be_bytes_len(a, 3);
    lemma_be_bytes_len(b, 3);
    assert(text_key(s) + x =~= be_bytes(a, 3) + x2);
    assert(text_key(t) + y =~= be_bytes(b, 3) + y2);
    lemma_split(be_bytes(a, 3), be_bytes(b, 3), x2, y2);
    lemma_pow256_values();
    if s.len() > 0 {
        lemma_char_code(s[0]);
    }
    if t.len() > 0 {
        lemma_char_code(t[0]);
    }
    lemma_be_bytes_injective(a, b, 3);
    if s.len() > 0 {
        lemma_char_ext(s[0], t[0]);
        lemma_text_key_unique(s.drop_first(), t.drop_first(), x, y);
        assert(s =~= seq![s[0]] + s.drop_first());
        assert(t =~= seq![t[0]] + t.drop_first());
    } else {
        assert(s =~= t);
    }
}

/// Where two optional texts' keys start alike, the texts are equal.
pub proof fn lemma_message_key_unique(
    s: Option<Seq<char>>,
    t: Option<Seq<char>>,
    x: Seq<u8>,
    y: Seq<u8>,
)
    requires
        message_key(s) + x == message_key(t) + y,
    ensures
        s == t,
        x == y,
{
    let first = seq![(message_key(s) + x)[0]];
    let s2 = if s is Some { text_key(s->0) + x } else { x };
    let t2 = if t is Some { text_key(t->0) + y } else { y };
    assert((message_key(s) + x)[0] == message_key(s)[0]);
    assert((message_key(t) + y)[0] == message_key(t)[0]);
    assert(message_key(s) + x =~= first + s2);
    assert(message_key(t) + y =~= first + t2);
    lemma_split(first, first, s2, t2);
    if s is Some {
        lemma_text_key_unique(s->0, t->0, x, y);
    }
}

/// The byte by which the sort keys of a kind of value start.
pub open spec fn kind_tag(value: ValueView) -> u8 {
    match value {
        ValueView::Nothing => 0,
        ValueView::Bool(_) => 1,
        ValueView::Int(_) => 2,
        ValueView::Identity(_) => 3,
        ValueView::Symbol(_) => 4,
        ValueView::String(_) => 5,
        ValueView::List(_) => 6,
        ValueView::Mapping(_) => 7,
        ValueView::OptionNone => 8,
        ValueView::OptionSome(_) => 9,
        ValueView::Frob(_, _) => 10,
        ValueView::Error(_, _, _) => 11,
        ValueView::Capability(_) => 12,
        ValueView::Float(_) => 13,
        ValueView::Bytes(_) => 14,
        ValueView::Relation(_, _) => 15,
    }
}

/// What follows the tag in a value's sort key.
pub open spec fn key_body(value: ValueView) -> Seq<u8> {
    match value {
        ValueView::Nothing => Seq::empty(),
        ValueView::Bool(b) => seq![if b { 1u8 } else { 0u8 }],
        ValueView::Int(i) => be_bytes((i + 0x8000_0000_0000_0000) as nat, 8),
        ValueView::Identity(id) => be_bytes(id as nat, 8),
        ValueView::Symbol(s) => text_key(s),
        ValueView::String(s) => text_key(s),
        ValueView::List(items) => list_key(items),
        ValueView::Mapping(entries) => entries_key(entries),
        ValueView::OptionNone => Seq::empty(),
        ValueView::OptionSome(v) => value_key(*v),
        ValueView::Frob(id, v) => be_bytes(id as nat, 8) + value_key(*v),
        ValueView::Error(code, message, v) => text_key(code) + message_key(message) + value_key(*v),
        ValueView::Capability(c) => be_bytes(c as nat, 8),
        ValueView::Float(place) => be_bytes(place as nat, 8),
        ValueView::Bytes(bytes) => text_key(byte_chars(bytes)),
        ValueView::Relation(names, tuples) => list_key(names) + list_key(tuples),
    }
}

/// A value's sort key is its tag and what follows it.
pub proof fn lemma_key_parts(value: ValueView)
    ensures
        value_key(value) == seq![kind_tag(value)] + key_body(value),
        value_key(value).len() > 0,
        value_key(value)[0] == kind_tag(value),
{
    assert(value_key(value) =~= seq![kind_tag(value)] + key_body(value));
}

/// Where two values' sort keys start alike, the values are equal: no sort key is
/// a proper prefix of another.
pub proof fn lemma_value_key_unique(a: ValueView, b: ValueView, x: Seq<u8>, y: Seq<u8>)
    requires
        value_key(a) + x == value_key(b) + y,
    ensures
        a == b,
        x == y,
    decreases a, 0nat,
{
    lemma_key_parts(a);
    lemma_key_parts(b);
    assert((value_key(a) + x)[0] == kind_tag(a));
    assert((value_key(b) + y)[0] == kind_tag(b));
    let ka = key_body(a) + x;
    let kb = key_body(b) + y;
    assert(value_key(a) + x =~= seq![kind_tag(a)] + ka);
    assert(value_key(b) + y =~= seq![kind_tag(b)] + kb);
    lemma_split(seq![kind_tag(a)], seq![kind_tag(b)], ka, kb);
    match (a, b) {
        (ValueView::Nothing, ValueView::Nothing) => {
            assert(ka =~= x);
            assert(kb =~= y);
        },
        (ValueView::OptionNone, ValueView::OptionNone) => {
            assert(ka =~= x);
            assert(kb =~= y);
        },
        (ValueView::Bool(p), ValueView::Bool(q)) => {
            assert(ka[0] == kb[0]);
            lemma_split(key_body(a), key_body(b), x, y);
        },
        (ValueView::Int(p), ValueView::Int(q)) => {
            lemma_be8_unique(
                (p + 0x8000_0000_0000_0000) as nat,
                (q + 0x8000_0000_0000_0000) as nat,
                x,
                y,
            );
        },
        (ValueView::Identity(p), ValueView::Identity(q)) => {
            lemma_be8_unique(p as nat, q as nat, x, y);
        },
        (ValueView::Capability(p), ValueView::Capability(q)) => {
            lemma_be8_unique(p as nat, q as nat, x, y);
        },
        (ValueView::Float(p), ValueView::Float(q)) => {
            lemma_be8_unique(p as nat, q as nat, x, y);
        },
        (ValueView::Bytes(p), ValueView::Bytes(q)) => {
            lemma_text_key_unique(byte_chars(p), byte_chars(q), x, y);
            lemma_byte_chars_unique(p, q);
        },
        (ValueView::Relation(m, p), ValueView::Relation(n, q)) => {
            let x2 = list_key(p) + x;
            let y2 = list_key(q) + y;
            assert(ka =~= list_key(m) + x2);
            assert(kb =~= list_key(n) + y2);
            lemma_list_key_unique(m, n, x2, y2);
            lemma_list_key_unique(p, q, x, y);
        },
        (ValueView::Symbol(p), ValueView::Symbol(q)) => {
            lemma_text_key_unique(p, q, x, y);
        },
        (ValueView::String(p), ValueView::String(q)) => {
            lemma_text_key_unique(p, q, x, y);
        },
        (ValueView::List(p), ValueView::List(q)) => {
            lemma_list_key_unique(p, q, x, y);
        },
        (ValueView::Mapping(p), ValueView::Mapping(q)) => {
            lemma_entries_key_unique(p, q, x, y);
        },
        (ValueView::OptionSome(p), ValueView::OptionSome(q)) => {
            lemma_value_key_unique(*p, *q, x, y);
        },
        (ValueView::Frob(i, p), ValueView::Frob(j, q)) => {
            let x2 = value_key(*p) + x;
            let y2 = value_key(*q) + y;
            assert(ka =~= be_bytes(i as nat, 8) + x2);
            assert(kb =~= be_bytes(j as nat, 8) + y2);
            lemma_be8_unique(i as nat, j as nat, x2, y2);
            lemma_value_key_unique(*p, *q, x, y);
        },
        (ValueView::Error(c, m, p), ValueView::Error(d, n, q)) => {
            let x2 = value_key(*p) + x;
            let y2 = value_key(*q) + y;
            let x3 = message_key(m) + x2;
            let y3 = message_key(n) + y2;
            assert(ka =~= text_key(c) + x3);
            assert(kb =~= text_key(d) + y3);
            lemma_text_key_unique(c, d, x3, y3);
            lemma_message_key_unique(m, n, x2, y2);
            lemma_value_key_unique(*p, *q, x, y);
        },
        _ => {},
    }
}

/// Where two lists' keys start alike, the lists are equal.
pub proof fn lemma_list_key_unique(
    p: Seq<ValueView>,
    q: Seq<ValueView>,
    x: Seq<u8>,
    y: Seq<u8>,
)
    requires
        list_key(p) + x == list_key(q) + y,
    ensures
        p == q,
        x == y,
    decreases p, 1nat,
{
    let first = seq![(list_key(p) + x)[0]];
    assert((list_key(p) + x)[0] == list_key(p)[0]);
    assert((list_key(q) + y)[0] == list_key(q)[0]);
    if p.len() == 0 {
        assert(q.len() == 0);
        lemma_split(list_key(p), list_key(q), x, y);
        assert(p =~= q);
    } else {
        assert(q.len() != 0);
        let pr = p.subrange(1, p.len() as int);
        let qr = q.subrange(1, q.len() as int);
        let x1 = list_key(pr) + x;
        let y1 = list_key(qr) + y;
        let x2 = value_key(p[0]) + x1;
        let y2 = value_key(q[0]) + y1;
        assert(list_key(p) + x =~= first + x2);
        assert(list_key(q) + y =~= first + y2);
        lemma_split(first, first, x2, y2);
        lemma_value_key_unique(p[0], q[0], x1, y1);
        lemma_list_key_unique(pr, qr, x, y);
        assert(p =~= seq![p[0]] + pr);
        assert(q =~= seq![q[0]] + qr);
    }
}

proof fn lemma_entries_key_unique(
    p: Seq<(ValueView, ValueView)>,
    q: Seq<(ValueView, ValueView)>,
    x: Seq<u8>,
    y: Seq<u8>,
)
    requires
        entries_key(p) + x == entries_key(q) + y,
    ensures
        p == q,
        x == y,
    decreases p, 1nat,
{
    let first = seq![(entries_key(p) + x)[0]];
    assert((entries_key(p) + x)[0] == entries_key(p)[0]);
    assert((entries_key(q) + y)[0] == entries_key(q)[0]);
    if p.len() == 0 {
        assert(q.len() == 0);
        lemma_split(entries_key(p), entries_key(q), x, y);
        assert(p =~= q);
    } else {
        assert(q.len() != 0);
        let pr = p.subrange(1, p.len() as int);
        let qr = q.subrange(1, q.len() as int);
        let x1 = entries_key(pr) + x;
        let y1 = entries_key(qr) + y;
        let x2 = value_key(p[0].1) + x1;
        let y2 = value_key(q[0].1) + y1;
        let x3 = value_key(p[0].0) + x2;
        let y3 = value_key(q[0].0) + y2;
        assert(entries_key(p) + x =~= first + x3);
        assert(entries_key(q) + y =~= first + y3);
        lemma_split(first, first, x3, y3);
        lemma_value_key_unique(p[0].0, q[0].0, x2, y2);
        lemma_value_key_unique(p[0].1, q[0].1, x1, y1);
        lemma_entries_key_unique(pr, qr, x, y);
        assert(p =~= seq![p[0]] + pr);
        assert(q =~= seq![q[0]] + qr);
    }
}

/// The sort key of some values is a prefix of the sort key of others exactly
/// where the values are.
pub proof fn lemma_values_key_prefix(s: Seq<ValueView>, t: Seq<ValueView>, x: Seq<u8>)
    requires
        values_key(s) + x == values_key(t),
    ensures
        s.len() <= t.len(),
        s == t.take(s.len() as int),
        x == values_key(t.skip(s.len() as int)),
    decreases s.len(),
{
    if s.len() == 0 {
        assert(values_key(s) + x =~= x);
        assert(t.take(0) =~= s);
        assert(t.skip(0) =~= t);
    } else {
        lemma_key_parts(s[0]);
        assert(t.len() > 0) by {
            if t.len() == 0 {
                assert((values_key(s) + x).len() > 0);
            }
        }
        let sr = s.subrange(1, s.len() as int);
        let tr = t.subrange(1, t.len() as int);
        assert(values_key(s) + x =~= value_key(s[0]) + (values_key(sr) + x));
        lemma_value_key_unique(s[0], t[0], values_key(sr) + x, values_key(tr));
        lemma_values_key_prefix(sr, tr, x);
        assert(s =~= seq![s[0]] + sr);
        assert(t.take(s.len() as int) =~= seq![t[0]] + tr.take(sr.len() as int));
        assert(t.skip(s.len() as int) =~= tr.skip(sr.len() as int));
    }
}

/// Values with equal sort keys are equal.
pub proof fn lemma_values_key_injective(s: Seq<ValueView>, t: Seq<ValueView>)
    requires
        values_key(s) == values_key(t),
    ensures
        s == t,
{
    assert(values_key(s) + Seq::<u8>::empty() =~= values_key(t));
    lemma_values_key_prefix(s, t, Seq::empty());
    if t.len() > s.len() {
        lemma_key_parts(t.skip(s.len() as int)[0]);
    }
    assert(t.take(s.len() as int) =~= t);
}

/// Sort keys of several values are joined as the values are.
pub proof fn lemma_values_key_concat(s: Seq<ValueView>, t: Seq<ValueView>)
    ensures
        values_key(s + t) == values_key(s) + values_key(t),
    decreases s.len(),
{
    if s.len() == 0 {
        assert(s + t =~= t);
        assert(values_key(s) + values_key(t) =~= values_key(t));
    } else {
        let sr = s.subrange(1, s.len() as int);
        assert((s + t).subrange(1, (s + t).len() as int) =~= sr + t);
        lemma_values_key_concat(sr, t);
        assert(values_key(s + t) =~= values_key(s) + values_key(t));
    }
}

/// A copy of `value`.
pub fn copy_value(value: &Value) -> (copy: Value)
    ensures
        copy@ == value@,
    decreases value,
{
    match value {
        Value::Nothing => Value::Nothing,
        Value::Bool(b) => Value::Bool(*b),
        Value::Int(i) => Value::Int(*i),
        Value::Identity(id) => Value::Identity(*id),
        Value::Symbol(s) => Value::Symbol(s.clone()),
        Value::String(s) => Value::String(s.clone()),
        Value::List(items) => {
            let mut out: Vec<Value> = Vec::new();
            let mut i: usize = 0;
            while i < items.len()
                invariant
                    *value == Value::List(*items),
                    i <= items@.len(),
                    out@.len() == i,
                    forall|j: int| 0 <= j < i ==> value_view(#[trigger] out@[j]) == value_view(items@[j]),
                decreases items@.len() - i,
            {
                assert(decreases_to!(*value => value->List_0));
                assert(decreases_to!(value->List_0 => value->List_0@));
                assert(decreases_to!(items@ => items@[i as int]));
                let item = copy_value(&items[i]);
                out.push(item);
                i = i + 1;
            }
            let copy = Value::List(out);
            assert(copy@->List_0 =~= value@->List_0);
            copy
        },
        Value::Mapping(entries) => {
            let mut out: Vec<(Value, Value)> = Vec::new();
            let mut i: usize = 0;
            while i < entries.len()
                invariant
                    *value == Value::Mapping(*entries),
                    i <= entries@.len(),
                    out@.len() == i,
                    forall|j: int|
                        0 <= j < i ==> value_view((#[trigger] out@[j]).0) == value_view(entries@[j].0)
                            && value_view(out@[j].1) == value_view(entries@[j].1),
                decreases entries@.len() - i,
            {
                assert(decreases_to!(*value => value->Mapping_0));
                assert(decreases_to!(value->Mapping_0 => value->Mapping_0@));
                assert(decreases_to!(entries@ => entries@[i as int]));
                assert(decreases_to!(entries@[i as int] => entries@[i as int].0));
                assert(decreases_to!(entries@[i as int] => entries@[i as int].1));
                let key = copy_value(&entries[i].0);
                let item = copy_value(&entries[i].1);
                out.push((key, item));
                i = i + 1;
            }
            let copy = Value::Mapping(out);
            assert(copy@->Mapping_0 =~= value@->Mapping_0);
            copy
        },
        Value::OptionNone => Value::OptionNone,
        Value::OptionSome(v) => Value::OptionSome(Box::new(copy_value(v))),
        Value::Frob(id, v) => Value::Frob(*id, Box::new(copy_value(v))),
        Value::Error(code, message, v) => {
            let message_copy: Option<String> = match message {
                Some(text) => Some(text.clone()),
                None => None,
            };
            Value::Error(code.clone(), message_copy, Box::new(copy_value(v)))
        },
        Value::Capability(c) => Value::Capability(*c),
        Value::Float(place) => Value::Float(*place),
        Value::Bytes(bytes) => Value::Bytes(copy_bytes(bytes)),
        Value::Relation(names, tuples) => {
            let mut some: Vec<Value> = Vec::new();
            let mut i: usize = 0;
            while i < names.len()
                invariant
                    *value == Value::Relation(*names, *tuples),
                    i <= names@.len(),
                    some@.len() == i,
                    forall|j: int|
                        0 <= j < i ==> value_view(#[trigger] some@[j]) == value_view(names@[j]),
                decreases names@.len() - i,
            {
                assert(decreases_to!(*value => value->Relation_0));
                assert(decreases_to!(value->Relation_0 => value->Relation_0@));
                assert(decreases_to!(names@ => names@[i as int]));
                let item = copy_value(&names[i]);
                some.push(item);
                i = i + 1;
            }
            let mut out: Vec<Value> = Vec::new();
            let mut k: usize = 0;
            while k < tuples.len()
                invariant
                    *value == Value::Relation(*names, *tuples),
                    k <= tuples@.len(),
                    out@.len() == k,
                    forall|j: int|
                        0 <= j < k ==> value_view(#[trigger] out@[j]) == value_view(tuples@[j]),
                decreases tuples@.len() - k,
            {
                assert(decreases_to!(*value => value->Relation_1));
                assert(decreases_to!(value->Relation_1 => value->Relation_1@));
                assert(decreases_to!(tuples@ => tuples@[k as int]));
                let item = copy_value(&tuples[k]);
                out.push(item);
                k = k + 1;
            }
            let copy = Value::Relation(some, out);
            assert(copy@->Relation_0 =~= value@->Relation_0);
            assert(copy@->Relation_1 =~= value@->Relation_1);
            copy
        },
    }
}

/// A copy of bytes.
pub fn copy_bytes(bytes: &[u8]) -> (copy: Vec<u8>)
    ensures
        copy@ == bytes@,
{
    let mut copy: Vec<u8> = Vec::new();
    let mut i: usize = 0;
    while i < bytes.len()
        invariant
            i <= bytes@.len(),
            copy@ == bytes@.take(i as int),
        decreases bytes@.len() - i,
    {
        copy.push(bytes[i]);
        i = i + 1;
        assert(copy@ =~= bytes@.take(i as int));
    }
    assert(bytes@.take(i as int) =~= bytes@);
    copy
}

/// Whether bytes are the same.
fn same_bytes(a: &[u8], b: &[u8]) -> (result: bool)
    ensures
        result == (a@ == b@),
{
    if a.len() != b.len() {
        return false;
    }
    let mut i: usize = 0;
    while i < a.len()
        invariant
            i <= a@.len() == b@.len(),
            forall|j: int| 0 <= j < i ==> a@[j] == b@[j],
        decreases a@.len() - i,
    {
        if a[i] != b[i] {
            return false;
        }
        i = i + 1;
    }
    assert(a@ =~= b@);
    true
}

impl Clone for Value {
    fn clone(&self) -> (copy: Value)
        ensures
            copy@ == self@,
    {
        copy_value(self)
    }
}

/// Whether two values are the same.
pub fn same_value(a: &Value, b: &Value) -> (result: bool)
    ensures
        result == (a@ == b@),
    decreases a,
{
    match (a, b) {
        (Value::Nothing, Value::Nothing) => true,
        (Value::Bool(p), Value::Bool(q)) => *p == *q,
        (Value::Int(p), Value::Int(q)) => *p == *q,
        (Value::Identity(p), Value::Identity(q)) => p.same(q),
        (Value::Symbol(p), Value::Symbol(q)) => p.same(q),
        (Value::String(p), Value::String(q)) => *p == *q,
        (Value::Capability(p), Value::Capability(q)) => *p == *q,
        (Value::OptionNone, Value::OptionNone) => true,
        (Value::OptionSome(p), Value::OptionSome(q)) => same_value(p, q),
        (Value::Frob(i, p), Value::Frob(j, q)) => i.same(j) && same_value(p, q),
        (Value::Error(c, m, p), Value::Error(d, n, q)) => {
            let messages: bool = match (m, n) {
                (None, None) => true,
                (Some(s), Some(t)) => *s == *t,
                _ => false,
            };
            c.same(d) && messages && same_value(p, q)
        },
        (Value::List(p), Value::List(q)) => {
            if p.len() != q.len() {
                assert(a@->List_0.len() != b@->List_0.len());
                return false;
            }
            let mut i: usize = 0;
            while i < p.len()
                invariant
                    *a == Value::List(*p),
                    *b == Value::List(*q),
                    p@.len() == q@.len(),
                    i <= p@.len(),
                    forall|j: int| 0 <= j < i ==> value_view(#[trigger] p@[j]) == value_view(q@[j]),
                decreases p@.len() - i,
            {
                if !same_value(&p[i], &q[i]) {
                    assert(a@->List_0[i as int] != b@->List_0[i as int]);
                    return false;
                }
                i = i + 1;
            }
            assert(a@->List_0 =~= b@->List_0);
            true
        },
        (Value::Float(p), Value::Float(q)) => *p == *q,
        (Value::Bytes(p), Value::Bytes(q)) => same_bytes(p, q),
        (Value::Relation(m, p), Value::Relation(n, q)) => {
            if m.len() != n.len() {
                assert(a@->Relation_0.len() != b@->Relation_0.len());
                return false;
            }
            if p.len() != q.len() {
                assert(a@->Relation_1.len() != b@->Relation_1.len());
                return false;
            }
            let mut i: usize = 0;
            while i < m.len()
                invariant
                    *a == Value::Relation(*m, *p),
                    *b == Value::Relation(*n, *q),
                    m@.len() == n@.len(),
                    i <= m@.len(),
                    forall|j: int|
                        0 <= j < i ==> value_view(#[trigger] m@[j]) == value_view(n@[j]),
                decreases m@.len() - i,
            {
                assert(decreases_to!(*a => a->Relation_0));
                assert(decreases_to!(a->Relation_0 => a->Relation_0@));
                assert(decreases_to!(m@ => m@[i as int]));
                if !same_value(&m[i], &n[i]) {
                    assert(a@->Relation_0[i as int] != b@->Relation_0[i as int]);
                    return false;
                }
                i = i + 1;
            }
            assert(a@->Relation_0 =~= b@->Relation_0);
            let mut k: usize = 0;
            while k < p.len()
                invariant
                    *a == Value::Relation(*m, *p),
                    *b == Value::Relation(*n, *q),
                    p@.len() == q@.len(),
                    k <= p@.len(),
                    forall|j: int|
                        0 <= j < k ==> value_view(#[trigger] p@[j]) == value_view(q@[j]),
                decreases p@.len() - k,
            {
                assert(decreases_to!(*a => a->Relation_1));
                assert(decreases_to!(a->Relation_1 => a->Relation_1@));
                assert(decreases_to!(p@ => p@[k as int]));
                if !same_value(&p[k], &q[k]) {
                    assert(a@->Relation_1[k as int] != b@->Relation_1[k as int]);
                    return false;
                }
                k = k + 1;
            }
            assert(a@->Relation_1 =~= b@->Relation_1);
            true
        },
        (Value::Mapping(p), Value::Mapping(q)) => {
            if p.len() != q.len() {
                assert(a@->Mapping_0.len() != b@->Mapping_0.len());
                return false;
            }
            let mut i: usize = 0;
            while i < p.len()
                invariant
                    *a == Value::Mapping(*p),
                    *b == Value::Mapping(*q),
                    p@.len() == q@.len(),
                    i <= p@.len(),
                    forall|j: int|
                        0 <= j < i ==> value_view((#[trigger] p@[j]).0) == value_view(q@[j].0)
                            && value_view(p@[j].1) == value_view(q@[j].1),
                decreases p@.len() - i,
            {
                if !same_value(&p[i].0, &q[i].0) || !same_value(&p[i].1, &q[i].1) {
                    assert(a@->Mapping_0[i as int] != b@->Mapping_0[i as int]);
                    return false;
                }
                i = i + 1;
            }
            assert(a@->Mapping_0 =~= b@->Mapping_0);
            true
        },
        _ => false,
    }
}

/// Appends the bytes that spell a text in a sort key.
fn push_text_key(out: &mut Vec<u8>, text: &str)
    ensures
        final(out)@ == old(out)@ + text_key(text@),
{
    assert(text@.skip(0) =~= text@);
    for c in iter: text.chars()
        invariant
            iter.seq() == text@,
            out@ + text_key(text@.skip(iter.index() as int)) == old(out)@ + text_key(text@),
    {
        let ghost done = iter.index() as int;
        let ghost before = out@;
        proof {
            lemma_char_code(c);
            let rest = text@.skip(done);
            assert(rest[0] == c);
            assert(rest.drop_first() =~= text@.skip(done + 1));
            assert(text_key(rest) == be_bytes((c as nat + 1) as nat, 3) + text_key(
                rest.drop_first(),
            ));
        }
        push_be(out, c as u64 + 1, 3);
        assert(before + text_key(text@.skip(done)) =~= out@ + text_key(text@.skip(done + 1)));
    }
    let ghost filled = out@;
    assert(text@.skip(text@.len() as int) =~= Seq::<char>::empty());
    push_be(out, 0, 3);
    assert(out@ =~= filled + text_key(text@.skip(text@.len() as int)));
}

/// Appends the bytes that spell bytes in a sort key.
fn push_bytes_key(out: &mut Vec<u8>, bytes: &[u8])
    ensures
        final(out)@ == old(out)@ + text_key(byte_chars(bytes@)),
{
    let ghost text = byte_chars(bytes@);
    let mut i: usize = 0;
    assert(text.skip(0) =~= text);
    while i < bytes.len()
        invariant
            i <= bytes@.len(),
            text == byte_chars(bytes@),
            out@ + text_key(text.skip(i as int)) == old(out)@ + text_key(text),
        decreases bytes@.len() - i,
    {
        let ghost before = out@;
        let ghost rest = text.skip(i as int);
        proof {
            assert(rest[0] == bytes@[i as int] as char);
            assert(rest[0] as nat == bytes@[i as int] as nat);
            assert(rest.drop_first() =~= text.skip(i + 1));
        }
        push_be(out, bytes[i] as u64 + 1, 3);
        assert(before + text_key(rest) =~= out@ + text_key(text.skip(i + 1)));
        i = i + 1;
    }
    let ghost filled = out@;
    assert(text.skip(text.len() as int) =~= Seq::<char>::empty());
    push_be(out, 0, 3);
    assert(out@ =~= filled + text_key(text.skip(text.len() as int)));
}

/// Appends the sort key of a value.
pub fn push_value_key(out: &mut Vec<u8>, value: &Value)
    ensures
        final(out)@ == old(out)@ + value_key(value@),
    decreases value,
{
    match value {
        Value::Nothing => {
            out.push(0);
        },
        Value::Bool(b) => {
            out.push(1);
            out.push(if *b { 1 } else { 0 });
        },
        Value::Int(i) => {
            out.push(2);
            push_be(out, (*i as i128 + 0x8000_0000_0000_0000) as u64, 8);
            assert(out@ =~= old(out)@ + value_key(value@));
        },
        Value::Identity(id) => {
            out.push(3);
            push_be(out, id.raw(), 8);
        },
        Value::Symbol(s) => {
            out.push(4);
            push_text_key(out, s.name());
        },
        Value::String(s) => {
            out.push(5);
            push_text_key(out, s.as_str());
        },
        Value::List(items) => {
            out.push(6);
            let ghost start = out@;
            let ghost all = value@->List_0;
            let mut i: usize = 0;
            assert(all.subrange(0, all.len() as int) =~= all);
            while i < items.len()
                invariant
                    *value == Value::List(*items),
                    all == value@->List_0,
                    i <= items@.len(),
                    out@ + list_key(all.subrange(i as int, all.len() as int)) == start + list_key(all),
                decreases items@.len() - i,
            {
                let ghost before = out@;
                let ghost rest = all.subrange(i as int, all.len() as int);
                assert(rest.subrange(1, rest.len() as int) =~= all.subrange(i + 1, all.len() as int));
                assert(decreases_to!(*value => value->List_0));
                assert(decreases_to!(value->List_0 => value->List_0@));
                assert(decreases_to!(items@ => items@[i as int]));
                out.push(1);
                push_value_key(out, &items[i]);
                i = i + 1;
                assert(rest[0] == items@[i - 1]@);
                assert(before + list_key(rest) =~= out@ + list_key(
                    all.subrange(i as int, all.len() as int),
                ));
            }
            let ghost filled = out@;
            out.push(0);
            assert(all.subrange(i as int, all.len() as int).len() == 0);
            assert(out@ =~= filled + list_key(all.subrange(i as int, all.len() as int)));
            assert(start =~= old(out)@ + seq![6u8]);
            assert(out@ =~= old(out)@ + (seq![6u8] + list_key(all)));
        },
        Value::Mapping(entries) => {
            out.push(7);
            let ghost start = out@;
            let ghost all = value@->Mapping_0;
            let mut i: usize = 0;
            assert(all.subrange(0, all.len() as int) =~= all);
            while i < entries.len()
                invariant
                    *value == Value::Mapping(*entries),
                    all == value@->Mapping_0,
                    i <= entries@.len(),
                    out@ + entries_key(all.subrange(i as int, all.len() as int)) == start
                        + entries_key(all),
                decreases entries@.len() - i,
            {
                let ghost before = out@;
                let ghost rest = all.subrange(i as int, all.len() as int);
                assert(rest.subrange(1, rest.len() as int) =~= all.subrange(i + 1, all.len() as int));
                assert(decreases_to!(*value => value->Mapping_0));
                assert(decreases_to!(value->Mapping_0 => value->Mapping_0@));
                assert(decreases_to!(entries@ => entries@[i as int]));
                assert(decreases_to!(entries@[i as int] => entries@[i as int].0));
                assert(decreases_to!(entries@[i as int] => entries@[i as int].1));
                out.push(1);
                push_value_key(out, &entries[i].0);
                push_value_key(out, &entries[i].1);
                i = i + 1;
                assert(rest[0] == (entries@[i - 1].0@, entries@[i - 1].1@));
                assert(before + entries_key(rest) =~= out@ + entries_key(
                    all.subrange(i as int, all.len() as int),
                ));
            }
            let ghost filled = out@;
            out.push(0);
            assert(all.subrange(i as int, all.len() as int).len() == 0);
            assert(out@ =~= filled + entries_key(all.subrange(i as int, all.len() as int)));
            assert(start =~= old(out)@ + seq![7u8]);
            assert(out@ =~= old(out)@ + (seq![7u8] + entries_key(all)));
        },
        Value::OptionNone => {
            out.push(8);
        },
        Value::OptionSome(v) => {
            out.push(9);
            push_value_key(out, v);
        },
        Value::Frob(id, v) => {
            out.push(10);
            push_be(out, id.raw(), 8);
            push_value_key(out, v);
            assert(out@ =~= old(out)@ + value_key(value@));
        },
        Value::Error(code, message, v) => {
            out.push(11);
            push_text_key(out, code.name());
            match message {
                None => {
                    out.push(0);
                },
                Some(text) => {
                    out.push(1);
                    push_text_key(out, text.as_str());
                },
            }
            push_value_key(out, v);
            assert(out@ =~= old(out)@ + value_key(value@));
        },
        Value::Capability(c) => {
            out.push(12);
            push_be(out, *c, 8);
        },
        Value::Float(place) => {
            out.push(13);
            push_be(out, *place, 8);
        },
        Value::Bytes(bytes) => {
            out.push(14);
            push_bytes_key(out, bytes);
        },
        Value::Relation(names, tuples) => {
            out.push(15);
            let ghost start = out@;
            let ghost heading = value@->Relation_0;
            let mut i: usize = 0;
            assert(heading.subrange(0, heading.len() as int) =~= heading);
            while i < names.len()
                invariant
                    *value == Value::Relation(*names, *tuples),
                    heading == value@->Relation_0,
                    i <= names@.len(),
                    out@ + list_key(heading.subrange(i as int, heading.len() as int)) == start
                        + list_key(heading),
                decreases names@.len() - i,
            {
                let ghost before = out@;
                let ghost rest = heading.subrange(i as int, heading.len() as int);
                assert(rest.subrange(1, rest.len() as int) =~= heading.subrange(
                    i + 1,
                    heading.len() as int,
                ));
                assert(decreases_to!(*value => value->Relation_0));
                assert(decreases_to!(value->Relation_0 => value->Relation_0@));
                assert(decreases_to!(names@ => names@[i as int]));
                out.push(1);
                push_value_key(out, &names[i]);
                i = i + 1;
                assert(rest[0] == names@[i - 1]@);
                assert(before + list_key(rest) =~= out@ + list_key(
                    heading.subrange(i as int, heading.len() as int),
                ));
            }
            let ghost filled_names = out@;
            out.push(0);
            assert(heading.subrange(i as int, heading.len() as int).len() == 0);
            assert(out@ =~= filled_names + list_key(
                heading.subrange(i as int, heading.len() as int),
            ));
            let ghost between = out@;
            let ghost all = value@->Relation_1;
            let mut k: usize = 0;
            assert(all.subrange(0, all.len() as int) =~= all);
            while k < tuples.len()
                invariant
                    *value == Value::Relation(*names, *tuples),
                    all == value@->Relation_1,
                    k <= tuples@.len(),
                    out@ + list_key(all.subrange(k as int, all.len() as int)) == between
                        + list_key(all),
                decreases tuples@.len() - k,
            {
                let ghost before = out@;
                let ghost rest = all.subrange(k as int, all.len() as int);
                assert(rest.subrange(1, rest.len() as int) =~= all.subrange(
                    k + 1,
                    all.len() as int,
                ));
                assert(decreases_to!(*value => value->Relation_1));
                assert(decreases_to!(value->Relation_1 => value->Relation_1@));
                assert(decreases_to!(tuples@ => tuples@[k as int]));
                out.push(1);
                push_value_key(out, &tuples[k]);
                k = k + 1;
                assert(rest[0] == tuples@[k - 1]@);
                assert(before + list_key(rest) =~= out@ + list_key(
                    all.subrange(k as int, all.len() as int),
                ));
            }
            let ghost filled_tuples = out@;
            out.push(0);
            assert(all.subrange(k as int, all.len() as int).len() == 0);
            assert(out@ =~= filled_tuples + list_key(
                all.subrange(k as int, all.len() as int),
            ));
            assert(start =~= old(out)@ + seq![15u8]);
            assert(out@ =~= old(out)@ + (seq![15u8] + list_key(heading) + list_key(all)));
        },
    }
    assert(out@ =~= old(out)@ + value_key(value@));
}

/// The sort key of several values.
pub fn key_from_values(values: &[Value]) -> (key: Vec<u8>)
    ensures
        key@ == values_key(views(values@)),
{
    let mut key: Vec<u8> = Vec::new();
    let ghost all = views(values@);
    let mut i: usize = 0;
    assert(all.subrange(0, all.len() as int) =~= all);
    while i < values.len()
        invariant
            all == views(values@),
            i <= values@.len(),
            key@ + values_key(all.subrange(i as int, all.len() as int)) == values_key(all),
        decreases values@.len() - i,
    {
        let ghost before = key@;
        let ghost rest = all.subrange(i as int, all.len() as int);
        assert(rest.subrange(1, rest.len() as int) =~= all.subrange(i + 1, all.len() as int));
        push_value_key(&mut key, &values[i]);
        i = i + 1;
        assert(rest[0] == values@[i - 1]@);
        assert(before + values_key(rest) =~= key@ + values_key(
            all.subrange(i as int, all.len() as int),
        ));
    }
    assert(key@ + values_key(all.subrange(i as int, all.len() as int)) =~= key@);
    key
}

/// Whether a value is held in place, without a reference to the heap.
pub open spec fn immediate(value: ValueView) -> bool {
    match value {
        ValueView::String(_) | ValueView::List(_) | ValueView::Mapping(_) | ValueView::OptionSome(_)
        | ValueView::Frob(_, _) | ValueView::Error(_, _, _) | ValueView::Bytes(_)
        | ValueView::Relation(_, _) => false,
        _ => true,
    }
}

/// Whether a value may be stored in a relation: it holds no capability.
pub open spec fn persistable(value: ValueView) -> bool
    decreases value,
{
    match value {
        ValueView::Capability(_) => false,
        ValueView::List(items) => forall|i: int| 0 <= i < items.len() ==> persistable(#[trigger] items[i]),
        ValueView::Mapping(entries) => forall|i: int|
            0 <= i < entries.len() ==> persistable((#[trigger] entries[i]).0) && persistable(
                entries[i].1,
            ),
        ValueView::Relation(names, tuples) => {
            &&& forall|i: int| 0 <= i < names.len() ==> persistable(#[trigger] names[i])
            &&& forall|i: int| 0 <= i < tuples.len() ==> persistable(#[trigger] tuples[i])
        },
        ValueView::OptionSome(v) => persistable(*v),
        ValueView::Frob(_, v) => persistable(*v),
        ValueView::Error(_, _, v) => persistable(*v),
        _ => true,
    }
}

/// Whether a value may be stored in a relation.
pub fn is_persistable(value: &Value) -> (result: bool)
    ensures
        result == persistable(value@),
    decreases value,
{
    match value {
        Value::Capability(_) => false,
        Value::List(items) => {
            let ghost all = value@->List_0;
            let mut i: usize = 0;
            while i < items.len()
                invariant
                    *value == Value::List(*items),
                    all == value@->List_0,
                    i <= items@.len(),
                    forall|j: int| 0 <= j < i ==> persistable(#[trigger] all[j]),
                decreases items@.len() - i,
            {
                assert(decreases_to!(*value => value->List_0));
                assert(decreases_to!(value->List_0 => value->List_0@));
                assert(decreases_to!(items@ => items@[i as int]));
                assert(all[i as int] == items@[i as int]@);
                if !is_persistable(&items[i]) {
                    return false;
                }
                i = i + 1;
            }
            true
        },
        Value::Mapping(entries) => {
            let ghost all = value@->Mapping_0;
            let mut i: usize = 0;
            while i < entries.len()
                invariant
                    *value == Value::Mapping(*entries),
                    all == value@->Mapping_0,
                    i <= entries@.len(),
                    forall|j: int|
                        0 <= j < i ==> persistable((#[trigger] all[j]).0) && persistable(all[j].1),
                decreases entries@.len() - i,
            {
                assert(decreases_to!(*value => value->Mapping_0));
                assert(decreases_to!(value->Mapping_0 => value->Mapping_0@));
                assert(decreases_to!(entries@ => entries@[i as int]));
                assert(decreases_to!(entries@[i as int] => entries@[i as int].0));
                assert(decreases_to!(entries@[i as int] => entries@[i as int].1));
                assert(all[i as int] == (entries@[i as int].0@, entries@[i as int].1@));
                if !is_persistable(&entries[i].0) || !is_persistable(&entries[i].1) {
                    return false;
                }
                i = i + 1;
            }
            true
        },
        Value::Relation(names, tuples) => {
            let ghost heading = value@->Relation_0;
            let mut i: usize = 0;
            while i < names.len()
                invariant
                    *value == Value::Relation(*names, *tuples),
                    heading == value@->Relation_0,
                    i <= names@.len(),
                    forall|j: int| 0 <= j < i ==> persistable(#[trigger] heading[j]),
                decreases names@.len() - i,
            {
                assert(decreases_to!(*value => value->Relation_0));
                assert(decreases_to!(value->Relation_0 => value->Relation_0@));
                assert(decreases_to!(names@ => names@[i as int]));
                assert(heading[i as int] == names@[i as int]@);
                if !is_persistable(&names[i]) {
                    return false;
                }
                i = i + 1;
            }
            let ghost all = value@->Relation_1;
            let mut k: usize = 0;
            while k < tuples.len()
                invariant
                    *value == Value::Relation(*names, *tuples),
                    all == value@->Relation_1,
                    k <= tuples@.len(),
                    forall|j: int| 0 <= j < k ==> persistable(#[trigger] all[j]),
                decreases tuples@.len() - k,
            {
                assert(decreases_to!(*value => value->Relation_1));
                assert(decreases_to!(value->Relation_1 => value->Relation_1@));
                assert(decreases_to!(tuples@ => tuples@[k as int]));
                assert(all[k as int] == tuples@[k as int]@);
                if !is_persistable(&tuples[k]) {
                    return false;
                }
                k = k + 1;
            }
            true
        },
        Value::OptionSome(v) => is_persistable(v),
        Value::Frob(_, v) => is_persistable(v),
        Value::Error(_, _, v) => is_persistable(v),
        _ => true,
    }
}

/// The value of the first entry of `entries` whose key is `key`.
pub open spec fn first_entry(
    entries: Seq<(ValueView, ValueView)>,
    key: ValueView,
) -> Option<ValueView>
    decreases entries.len(),
{
    if entries.len() == 0 {
        None
    } else if entries[0].0 == key {
        Some(entries[0].1)
    } else {
        first_entry(entries.drop_first(), key)
    }
}

/// The value of the first of `entries` with the given key.
pub fn find_entry<'a>(entries: &'a [(Value, Value)], key: &Value) -> (found: Option<&'a Value>)
    ensures
        found is Some == first_entry(pair_views(entries@), key@) is Some,
        found matches Some(value) ==> first_entry(pair_views(entries@), key@) == Some(value@),
{
    let ghost all = pair_views(entries@);
    let mut i: usize = 0;
    assert(all.skip(0) =~= all);
    while i < entries.len()
        invariant
            all == pair_views(entries@),
            i <= entries@.len(),
            first_entry(all, key@) == first_entry(all.skip(i as int), key@),
        decreases entries@.len() - i,
    {
        assert(all.skip(i as int)[0] == (entries@[i as int].0@, entries@[i as int].1@));
        assert(all.skip(i as int).drop_first() =~= all.skip(i + 1));
        if same_value(&entries[i].0, key) {
            return Some(&entries[i].1);
        }
        i = i + 1;
    }
    None
}

impl Value {
    /// An integer value, where the integer is in range.
    pub fn integer(i: i64) -> (value: Option<Value>)
        ensures
            value is Some <==> INT_MIN <= i <= INT_MAX,
            value matches Some(found) ==> found@ == ValueView::Int(i),
    {
        if INT_MIN <= i && i <= INT_MAX {
            Some(Value::Int(i))
        } else {
            None
        }
    }

    /// A symbol value.
    pub fn symbol(symbol: Symbol) -> (value: Value)
        ensures
            value@ == ValueView::Symbol(symbol@),
    {
        Value::Symbol(symbol)
    }

    /// The symbol with the given name, as a value.
    pub fn named(name: &str) -> (value: Value)
        ensures
            value@ == ValueView::Symbol(name@),
    {
        Value::Symbol(Symbol::intern(name))
    }

    /// A text value.
    pub fn string(text: &str) -> (value: Value)
        ensures
            value@ == ValueView::String(text@),
    {
        Value::String(text.to_owned())
    }

    /// An identity value.
    pub fn identity(identity: Identity) -> (value: Value)
        ensures
            value@ == ValueView::Identity(identity@),
    {
        Value::Identity(identity)
    }

    /// A list value.
    pub fn list(items: Vec<Value>) -> (value: Value)
        ensures
            value@ == ValueView::List(views(items@)),
    {
        let value = Value::List(items);
        assert(value@->List_0 =~= views(items@));
        value
    }

    /// A mapping value with the given entries, in order.
    pub fn map(entries: Vec<(Value, Value)>) -> (value: Value)
        ensures
            value@ == ValueView::Mapping(pair_views(entries@)),
    {
        let value = Value::Mapping(entries);
        assert(value@->Mapping_0 =~= pair_views(entries@));
        value
    }

    /// A floating number, by its place in the order of floating numbers.
    pub fn float(place: u64) -> (value: Value)
        ensures
            value@ == ValueView::Float(place),
    {
        Value::Float(place)
    }

    /// A value of bytes.
    pub fn bytes(bytes: &[u8]) -> (value: Value)
        ensures
            value@ == ValueView::Bytes(bytes@),
    {
        Value::Bytes(copy_bytes(bytes))
    }

    /// An error value with a code and a message and no further value.
    pub fn error(code: Symbol, message: &str) -> (value: Value)
        ensures
            value@ == ValueView::Error(code@, Some(message@), Box::new(ValueView::Nothing)),
    {
        let payload = Value::Nothing;
        assert(payload@ == ValueView::Nothing);
        Value::Error(code, Some(message.to_owned()), Box::new(payload))
    }

    /// A value with a delegate that answers for it.
    pub fn frob(delegate: Identity, payload: Value) -> (value: Value)
        ensures
            value@ == ValueView::Frob(delegate@, Box::new(payload@)),
    {
        Value::Frob(delegate, Box::new(payload))
    }

    /// The symbol that the value is.
    pub fn as_symbol(&self) -> (symbol: Option<&Symbol>)
        ensures
            symbol is Some == self@ is Symbol,
            symbol matches Some(found) ==> self@ == ValueView::Symbol(found@),
    {
        match self {
            Value::Symbol(symbol) => Some(symbol),
            _ => None,
        }
    }

    /// The identity that the value is.
    pub fn as_identity(&self) -> (identity: Option<Identity>)
        ensures
            identity is Some == self@ is Identity,
            identity matches Some(found) ==> self@ == ValueView::Identity(found@),
    {
        match self {
            Value::Identity(identity) => Some(*identity),
            _ => None,
        }
    }

    /// The integer that the value is.
    pub fn as_int(&self) -> (number: Option<i64>)
        ensures
            number is Some == self@ is Int,
            number matches Some(found) ==> self@ == ValueView::Int(found),
    {
        match self {
            Value::Int(number) => Some(*number),
            _ => None,
        }
    }

    /// The delegate of a value that has one.
    pub fn frob_delegate(&self) -> (delegate: Option<Identity>)
        ensures
            delegate is Some == self@ is Frob,
            delegate matches Some(found) ==> found@ == self@->Frob_0,
    {
        match self {
            Value::Frob(delegate, _) => Some(*delegate),
            _ => None,
        }
    }

    /// The value of the first entry of a mapping with the given symbol as key.
    pub fn map_get(&self, name: &str) -> (found: Option<&Value>)
        ensures
            found is Some == field_of(self@, name@) is Some,
            found matches Some(value) ==> field_of(self@, name@) == Some(value@),
    {
        match self {
            Value::Mapping(entries) => {
                assert(pair_views(entries@) =~= self@->Mapping_0);
                let key = Value::named(name);
                find_entry(entries, &key)
            },
            _ => None,
        }
    }

    /// Whether the value is held in place.
    pub fn is_immediate(&self) -> (result: bool)
        ensures
            result == immediate(self@),
    {
        match self {
            Value::String(_) | Value::List(_) | Value::Mapping(_) | Value::OptionSome(_)
            | Value::Frob(_, _) | Value::Error(_, _, _) | Value::Bytes(_)
            | Value::Relation(_, _) => false,
            _ => true,
        }
    }

    /// Whether two values are the same.
    pub fn same(&self, other: &Value) -> (result: bool)
        ensures
            result == (self@ == other@),
    {
        same_value(self, other)
    }
}

/// The value that a mapping holds under a symbol, the first one counting.
pub open spec fn field_of(value: ValueView, name: Seq<char>) -> Option<ValueView> {
    match value {
        ValueView::Mapping(entries) => first_entry(entries, ValueView::Symbol(name)),
        _ => None,
    }
}

/// A copy of several values.
pub fn copy_values(values: &[Value]) -> (copy: Vec<Value>)
    ensures
        views(copy@) == views(values@),
        copy@.len() == values@.len(),
{
    let mut copy: Vec<Value> = Vec::new();
    let mut i: usize = 0;
    while i < values.len()
        invariant
            i <= values@.len(),
            copy@.len() == i,
            forall|j: int| 0 <= j < i ==> value_view(#[trigger] copy@[j]) == value_view(values@[j]),
        decreases values@.len() - i,
    {
        copy.push(copy_value(&values[i]));
        i = i + 1;
    }
    assert(views(copy@) =~= views(values@));
    copy
}

impl PartialEq for Value {
    fn eq(&self, other: &Value) -> (result: bool) {
        same_value(self, other)
    }
}

impl vstd::std_specs::cmp::PartialEqSpecImpl for Value {
    open spec fn obeys_eq_spec() -> bool {
        true
    }

    open spec fn eq_spec(&self, other: &Value) -> bool {
        self@ == other@
    }
}

impl PartialEq for Symbol {
    fn eq(&self, other: &Symbol) -> (result: bool) {
        self.same(other)
    }
}

impl vstd::std_specs::cmp::PartialEqSpecImpl for Symbol {
    open spec fn obeys_eq_spec() -> bool {
        true
    }

    open spec fn eq_spec(&self, other: &Symbol) -> bool {
        self@ == other@
    }
}

} // verus!
