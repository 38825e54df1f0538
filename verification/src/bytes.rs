//! Big-endian byte strings and their order.

use vstd::arithmetic::power::{lemma_pow1, lemma_pow_adds, lemma_pow_positive, pow};
use vstd::prelude::*;

verus! {

/// The `width` low-order bytes of `n`, most significant byte first.
pub open spec fn be_bytes(n: nat, width: nat) -> Seq<u8>
    decreases width,
{
    if width == 0 {
        Seq::empty()
    } else {
        be_bytes(n / 256, (width - 1) as nat).push((n % 256) as u8)
    }
}

/// The number that `s` spells, most significant byte first.
pub open spec fn be_value(s: Seq<u8>) -> nat
    decreases s.len(),
{
    if s.len() == 0 {
        0
    } else {
        be_value(s.drop_last()) * 256 + s.last() as nat
    }
}

/// A byte string of a given width has exactly that many bytes.
pub proof fn lemma_be_bytes_len(n: nat, width: nat)
    ensures
        be_bytes(n, width).len() == width,
    decreases width,
{
    if width > 0 {
        lemma_be_bytes_len(n / 256, (width - 1) as nat);
    }
}

pub proof fn lemma_pow256_step(width: nat)
    requires
        width > 0,
    ensures
        pow(256, width) == pow(256, (width - 1) as nat) * 256,
{
    lemma_pow_adds(256, (width - 1) as nat, 1);
    lemma_pow1(256);
}

/// A number spelled by `s` is below `256` to the power of its length.
pub proof fn lemma_be_value_bound(s: Seq<u8>)
    ensures
        be_value(s) < pow(256, s.len()),
    decreases s.len(),
{
    if s.len() == 0 {
        lemma_pow_positive(256, 0);
    } else {
        lemma_be_value_bound(s.drop_last());
        lemma_pow256_step(s.len());
        let p = pow(256, (s.len() - 1) as nat);
        let v = be_value(s.drop_last()) as int;
        assert(v * 256 + 255 < p * 256) by (nonlinear_arith)
            requires
                v + 1 <= p,
        ;
    }
}

/// Reading back what was spelled gives the number, as long as it fits.
pub proof fn lemma_be_value_of_bytes(n: nat, width: nat)
    requires
        n < pow(256, width),
    ensures
        be_value(be_bytes(n, width)) == n,
    decreases width,
{
    if width == 0 {
        lemma_pow_positive(256, 0);
        assert(pow(256, 0) == 1) by {
            reveal(pow);
        }
    } else {
        lemma_pow256_step(width);
        let p = pow(256, (width - 1) as nat);
        assert(n / 256 < p) by (nonlinear_arith)
            requires
                n < p * 256,
        ;
        lemma_be_value_of_bytes(n / 256, (width - 1) as nat);
        let s = be_bytes(n, width);
        assert(s.drop_last() =~= be_bytes(n / 256, (width - 1) as nat));
        assert(s.last() as nat == n % 256);
    }
}

/// Spelling what was read gives the byte string back.
pub proof fn lemma_be_bytes_of_value(s: Seq<u8>)
    ensures
        be_bytes(be_value(s), s.len()) == s,
    decreases s.len(),
{
    if s.len() == 0 {
        assert(be_bytes(be_value(s), s.len()) =~= s);
    } else {
        lemma_be_bytes_of_value(s.drop_last());
        let v = be_value(s.drop_last());
        assert((v * 256 + s.last() as nat) / 256 == v);
        assert((v * 256 + s.last() as nat) % 256 == s.last() as nat);
        assert(s.drop_last().push(s.last()) =~= s);
    }
}

/// Powers of 256 at the widths in use.
pub proof fn lemma_pow256_values()
    ensures
        pow(256, 1) == 0x100,
        pow(256, 2) == 0x1_0000,
        pow(256, 3) == 0x100_0000,
        pow(256, 4) == 0x1_0000_0000,
        pow(256, 7) == 0x100_0000_0000_0000,
        pow(256, 8) == 0x1_0000_0000_0000_0000,
{
    lemma_pow1(256);
    lemma_pow_adds(256, 1, 1);
    lemma_pow_adds(256, 2, 1);
    lemma_pow_adds(256, 2, 2);
    lemma_pow_adds(256, 4, 4);
    let two = pow(256, 2);
    let four = pow(256, 4);
    assert(two * two == 0x1_0000_0000) by (nonlinear_arith)
        requires
            two == 0x1_0000,
    ;
    assert(four * four == 0x1_0000_0000_0000_0000) by (nonlinear_arith)
        requires
            four == 0x1_0000_0000,
    ;
    lemma_pow_adds(256, 4, 3);
    let three = pow(256, 3);
    assert(four * three == 0x100_0000_0000_0000) by (nonlinear_arith)
        requires
            four == 0x1_0000_0000,
            three == 0x100_0000,
    ;
}

/// Two numbers that fit a width and are spelled alike are equal.
pub proof fn lemma_be_bytes_injective(a: nat, b: nat, width: nat)
    requires
        a < pow(256, width),
        b < pow(256, width),
        be_bytes(a, width) == be_bytes(b, width),
    ensures
        a == b,
{
    lemma_be_value_of_bytes(a, width);
    lemma_be_value_of_bytes(b, width);
}

/// Appends the `width` low-order bytes of `n`.
pub fn push_be(out: &mut Vec<u8>, n: u64, width: usize)
    ensures
        final(out)@ == old(out)@ + be_bytes(n as nat, width as nat),
    decreases width,
{
    if width > 0 {
        push_be(out, n / 256, width - 1);
        out.push((n % 256) as u8);
    }
    assert(out@ =~= old(out)@ + be_bytes(n as nat, width as nat));
}

/// Appends every byte of `bytes`.
pub fn push_all(out: &mut Vec<u8>, bytes: &[u8])
    ensures
        final(out)@ == old(out)@ + bytes@,
{
    let mut i: usize = 0;
    while i < bytes.len()
        invariant
            i <= bytes@.len(),
            out@ == old(out)@ + bytes@.take(i as int),
        decreases bytes@.len() - i,
    {
        out.push(bytes[i]);
        i = i + 1;
        assert(bytes@.take(i as int) =~= bytes@.take(i - 1).push(bytes@[i - 1]));
    }
    assert(bytes@.take(i as int) =~= bytes@);
}

/// The number that the `width` bytes from `start` spell.
pub fn read_be(bytes: &[u8], start: usize, width: usize) -> (n: u64)
    requires
        width <= 8,
        start + width <= bytes@.len(),
    ensures
        n as nat == be_value(bytes@.subrange(start as int, start + width)),
{
    let len: usize = bytes.len();
    let mut acc: u64 = 0;
    let mut i: usize = 0;
    assert(bytes@.subrange(start as int, start as int) =~= Seq::<u8>::empty());
    while i < width
        invariant
            i <= width <= 8,
            start + width <= len == bytes@.len(),
            acc as nat == be_value(bytes@.subrange(start as int, start + i)),
        decreases width - i,
    {
        proof {
            let next = bytes@.subrange(start as int, start + i + 1);
            assert(next.drop_last() =~= bytes@.subrange(start as int, start + i));
            lemma_be_value_bound(next);
            lemma_pow256_values();
            vstd::arithmetic::power::lemma_pow_increases(256, (i + 1) as nat, 8);
        }
        acc = acc * 256 + bytes[start + i] as u64;
        i = i + 1;
    }
    acc
}

/// Whether a byte string starts with another.
pub open spec fn starts_with(key: Seq<u8>, prefix: Seq<u8>) -> bool {
    prefix.len() <= key.len() && key.take(prefix.len() as int) == prefix
}

/// Whether `a` comes strictly before `b` when compared byte by byte, a proper
/// prefix coming first.
pub open spec fn lex_less(a: Seq<u8>, b: Seq<u8>) -> bool
    decreases a.len(),
{
    if b.len() == 0 {
        false
    } else if a.len() == 0 {
        true
    } else if a[0] != b[0] {
        a[0] < b[0]
    } else {
        lex_less(a.drop_first(), b.drop_first())
    }
}

/// No byte string comes before itself.
pub proof fn lemma_lex_irreflexive(a: Seq<u8>)
    ensures
        !lex_less(a, a),
    decreases a.len(),
{
    if a.len() > 0 {
        lemma_lex_irreflexive(a.drop_first());
    }
}

/// Of two different byte strings one comes before the other.
pub proof fn lemma_lex_total(a: Seq<u8>, b: Seq<u8>)
    ensures
        a == b || lex_less(a, b) || lex_less(b, a),
    decreases a.len(),
{
    if a.len() == 0 || b.len() == 0 {
        assert(a.len() == 0 && b.len() == 0 ==> a =~= b);
    } else {
        lemma_lex_total(a.drop_first(), b.drop_first());
        if a[0] == b[0] && a.drop_first() == b.drop_first() {
            assert(a =~= seq![a[0]] + a.drop_first());
            assert(b =~= seq![b[0]] + b.drop_first());
        }
    }
}

/// The order of byte strings is transitive.
pub proof fn lemma_lex_transitive(a: Seq<u8>, b: Seq<u8>, c: Seq<u8>)
    requires
        lex_less(a, b),
        lex_less(b, c),
    ensures
        lex_less(a, c),
    decreases a.len(),
{
    if a.len() > 0 && a[0] == b[0] && b[0] == c[0] {
        lemma_lex_transitive(a.drop_first(), b.drop_first(), c.drop_first());
    }
}

/// Of two byte strings at most one comes before the other.
pub proof fn lemma_lex_asymmetric(a: Seq<u8>, b: Seq<u8>)
    requires
        lex_less(a, b),
    ensures
        !lex_less(b, a),
        a != b,
{
    if lex_less(b, a) {
        lemma_lex_transitive(a, b, a);
    }
    lemma_lex_irreflexive(a);
}

/// Where two byte strings first differ decides their order.
pub proof fn lemma_lex_common_prefix(p: Seq<u8>, a: Seq<u8>, b: Seq<u8>)
    ensures
        lex_less(p + a, p + b) == lex_less(a, b),
    decreases p.len(),
{
    if p.len() == 0 {
        assert(p + a =~= a);
        assert(p + b =~= b);
    } else {
        assert((p + a).drop_first() =~= p.drop_first() + a);
        assert((p + b).drop_first() =~= p.drop_first() + b);
        lemma_lex_common_prefix(p.drop_first(), a, b);
    }
}

/// How one byte string stands to another.
#[derive(Clone, Copy, Debug, PartialEq, Eq, Structural)]
pub enum Standing {
    Before,
    Same,
    After,
}

/// How `a` stands to `b` in the order of byte strings.
pub open spec fn standing(a: Seq<u8>, b: Seq<u8>) -> Standing {
    if lex_less(a, b) {
        Standing::Before
    } else if a == b {
        Standing::Same
    } else {
        Standing::After
    }
}

/// Compares two byte strings.
pub fn compare_bytes(a: &[u8], b: &[u8]) -> (result: Standing)
    ensures
        result == standing(a@, b@),
        (result is After) == lex_less(b@, a@),
{
    let mut i: usize = 0;
    proof {
        assert(a@.skip(0) =~= a@);
        assert(b@.skip(0) =~= b@);
        lemma_lex_total(a@, b@);
        if lex_less(a@, b@) {
            lemma_lex_asymmetric(a@, b@);
        }
        if lex_less(b@, a@) {
            lemma_lex_asymmetric(b@, a@);
        }
    }
    while i < a.len() && i < b.len() && a[i] == b[i]
        invariant
            i <= a@.len(),
            i <= b@.len(),
            lex_less(a@, b@) == lex_less(a@.skip(i as int), b@.skip(i as int)),
            a@.take(i as int) == b@.take(i as int),
        decreases a@.len() - i,
    {
        proof {
            assert(a@.skip(i as int).drop_first() =~= a@.skip(i + 1));
            assert(b@.skip(i as int).drop_first() =~= b@.skip(i + 1));
            assert(a@.take(i + 1) =~= a@.take(i as int).push(a@[i as int]));
            assert(b@.take(i + 1) =~= b@.take(i as int).push(b@[i as int]));
        }
        i = i + 1;
    }
    if i < b.len() {
        if i >= a.len() || a[i] < b[i] {
            Standing::Before
        } else {
            assert(a@ != b@);
            Standing::After
        }
    } else if i < a.len() {
        assert(a@ != b@);
        Standing::After
    } else {
        assert(a@ =~= a@.take(i as int));
        assert(b@ =~= b@.take(i as int));
        Standing::Same
    }
}

} // verus!
