//! Byte strings: their dictionary order, equality, and the big-endian form of
//! a 128-bit integer.

use vstd::prelude::*;

verus! {

/// Dictionary order on byte strings: `a` comes no later than `b`.
pub open spec fn lex_le(a: Seq<u8>, b: Seq<u8>) -> bool
    decreases a.len(),
{
    if a.len() == 0 {
        true
    } else if b.len() == 0 {
        false
    } else if a[0] != b[0] {
        a[0] < b[0]
    } else {
        lex_le(a.drop_first(), b.drop_first())
    }
}

/// Strict dictionary order on byte strings.
pub open spec fn lex_lt(a: Seq<u8>, b: Seq<u8>) -> bool {
    lex_le(a, b) && a != b
}

/// Of two byte strings one comes no later than the other.
pub proof fn lemma_lex_total(a: Seq<u8>, b: Seq<u8>)
    ensures
        lex_le(a, b) || lex_le(b, a),
    decreases a.len(),
{
    if a.len() > 0 && b.len() > 0 && a[0] == b[0] {
        lemma_lex_total(a.drop_first(), b.drop_first());
    }
}

/// Two byte strings that come no later than each other are equal.
pub proof fn lemma_lex_antisymmetric(a: Seq<u8>, b: Seq<u8>)
    requires
        lex_le(a, b),
        lex_le(b, a),
    ensures
        a == b,
    decreases a.len(),
{
    if a.len() == 0 {
        assert(b.len() == 0);
        assert(a =~= b);
    } else {
        lemma_lex_antisymmetric(a.drop_first(), b.drop_first());
        assert(a =~= seq![a[0]] + a.drop_first());
        assert(b =~= seq![b[0]] + b.drop_first());
    }
}

/// Dictionary order is transitive.
pub proof fn lemma_lex_transitive(a: Seq<u8>, b: Seq<u8>, c: Seq<u8>)
    requires
        lex_le(a, b),
        lex_le(b, c),
    ensures
        lex_le(a, c),
    decreases a.len(),
{
    if a.len() > 0 && a[0] == b[0] && b[0] == c[0] {
        lemma_lex_transitive(a.drop_first(), b.drop_first(), c.drop_first());
    }
}

/// Every byte string comes no later than itself.
pub proof fn lemma_lex_reflexive(a: Seq<u8>)
    ensures
        lex_le(a, a),
    decreases a.len(),
{
    if a.len() > 0 {
        lemma_lex_reflexive(a.drop_first());
    }
}

/// Compares two byte strings in dictionary order.
pub fn bytes_le(a: &[u8], b: &[u8]) -> (le: bool)
    ensures
        le == lex_le(a@, b@),
{
    let mut i: usize = 0;
    assert(a@.skip(0) =~= a@ && b@.skip(0) =~= b@);
    while i < a.len() && i < b.len()
        invariant
            i <= a.len(),
            i <= b.len(),
            lex_le(a@, b@) == lex_le(a@.skip(i as int), b@.skip(i as int)),
        decreases a.len() - i,
    {
        assert(a@.skip(i as int)[0] == a@[i as int]);
        assert(b@.skip(i as int)[0] == b@[i as int]);
        if a[i] != b[i] {
            return a[i] < b[i];
        }
        assert(a@.skip(i as int).drop_first() =~= a@.skip(i + 1));
        assert(b@.skip(i as int).drop_first() =~= b@.skip(i + 1));
        i = i + 1;
    }
    i == a.len()
}

/// Tells whether two byte strings are equal.
pub fn bytes_eq(a: &[u8], b: &[u8]) -> (eq: bool)
    ensures
        eq == (a@ == b@),
{
    if a.len() != b.len() {
        return false;
    }
    let mut i: usize = 0;
    while i < a.len()
        invariant
            i <= a.len(),
            a.len() == b.len(),
            forall|j: int| 0 <= j < i ==> a@[j] == b@[j],
        decreases a.len() - i,
    {
        if a[i] != b[i] {
            return false;
        }
        i = i + 1;
    }
    assert(a@ =~= b@);
    true
}

/// A copy of a byte string.
pub fn bytes_copy(a: &[u8]) -> (copy: Vec<u8>)
    ensures
        copy@ == a@,
{
    let mut copy: Vec<u8> = Vec::new();
    let mut i: usize = 0;
    while i < a.len()
        invariant
            i <= a.len(),
            copy@ == a@.take(i as int),
        decreases a.len() - i,
    {
        copy.push(a[i]);
        assert(copy@ =~= a@.take(i + 1));
        i = i + 1;
    }
    assert(a@.take(a.len() as int) =~= a@);
    copy
}

/// Byte `i` of the sixteen-byte big-endian form of `v`: byte 0 holds the
/// eight highest bits.
pub open spec fn be_byte(v: u128, i: int) -> u8 {
    ((v >> ((8 * (15 - i)) as u128)) & 0xff) as u8
}

/// The sixteen-byte big-endian form of `v`.
pub open spec fn be_bytes(v: u128) -> Seq<u8> {
    Seq::new(16, |i: int| be_byte(v, i))
}

/// Writes `v` as sixteen bytes, highest first.
pub fn u128_be_bytes(v: u128) -> (out: Vec<u8>)
    ensures
        out@ == be_bytes(v),
{
    let mut out: Vec<u8> = Vec::new();
    let mut i: u128 = 0;
    while i < 16
        invariant
            i <= 16,
            out@.len() == i,
            forall|j: int| 0 <= j < i ==> out@[j] == be_byte(v, j),
        decreases 16 - i,
    {
        let shift: u128 = 8 * (15 - i);
        let byte: u128 = (v >> shift) & 0xff;
        assert(byte <= 0xff) by (bit_vector)
            requires
                byte == (v >> shift) & 0xff,
        ;
        out.push(byte as u8);
        i = i + 1;
    }
    assert(out@ =~= be_bytes(v));
    out
}

/// Two integers with the same big-endian form are equal.
pub proof fn lemma_be_bytes_injective(a: u128, b: u128)
    requires
        be_bytes(a) == be_bytes(b),
    ensures
        a == b,
{
    assert(be_byte(a, 0) == be_bytes(a)[0] && be_byte(b, 0) == be_bytes(b)[0]);
    assert(be_byte(a, 1) == be_bytes(a)[1] && be_byte(b, 1) == be_bytes(b)[1]);
    assert(be_byte(a, 2) == be_bytes(a)[2] && be_byte(b, 2) == be_bytes(b)[2]);
    assert(be_byte(a, 3) == be_bytes(a)[3] && be_byte(b, 3) == be_bytes(b)[3]);
    assert(be_byte(a, 4) == be_bytes(a)[4] && be_byte(b, 4) == be_bytes(b)[4]);
    assert(be_byte(a, 5) == be_bytes(a)[5] && be_byte(b, 5) == be_bytes(b)[5]);
    assert(be_byte(a, 6) == be_bytes(a)[6] && be_byte(b, 6) == be_bytes(b)[6]);
    assert(be_byte(a, 7) == be_bytes(a)[7] && be_byte(b, 7) == be_bytes(b)[7]);
    assert(be_byte(a, 8) == be_bytes(a)[8] && be_byte(b, 8) == be_bytes(b)[8]);
    assert(be_byte(a, 9) == be_bytes(a)[9] && be_byte(b, 9) == be_bytes(b)[9]);
    assert(be_byte(a, 10) == be_bytes(a)[10] && be_byte(b, 10) == be_bytes(b)[10]);
    assert(be_byte(a, 11) == be_bytes(a)[11] && be_byte(b, 11) == be_bytes(b)[11]);
    assert(be_byte(a, 12) == be_bytes(a)[12] && be_byte(b, 12) == be_bytes(b)[12]);
    assert(be_byte(a, 13) == be_bytes(a)[13] && be_byte(b, 13) == be_bytes(b)[13]);
    assert(be_byte(a, 14) == be_bytes(a)[14] && be_byte(b, 14) == be_bytes(b)[14]);
    assert(be_byte(a, 15) == be_bytes(a)[15] && be_byte(b, 15) == be_bytes(b)[15]);
    assert(a == b) by (bit_vector)
        requires
            ((a >> 120u128) & 0xff) as u8 == ((b >> 120u128) & 0xff) as u8,
            ((a >> 112u128) & 0xff) as u8 == ((b >> 112u128) & 0xff) as u8,
            ((a >> 104u128) & 0xff) as u8 == ((b >> 104u128) & 0xff) as u8,
            ((a >> 96u128) & 0xff) as u8 == ((b >> 96u128) & 0xff) as u8,
            ((a >> 88u128) & 0xff) as u8 == ((b >> 88u128) & 0xff) as u8,
            ((a >> 80u128) & 0xff) as u8 == ((b >> 80u128) & 0xff) as u8,
            ((a >> 72u128) & 0xff) as u8 == ((b >> 72u128) & 0xff) as u8,
            ((a >> 64u128) & 0xff) as u8 == ((b >> 64u128) & 0xff) as u8,
            ((a >> 56u128) & 0xff) as u8 == ((b >> 56u128) & 0xff) as u8,
            ((a >> 48u128) & 0xff) as u8 == ((b >> 48u128) & 0xff) as u8,
            ((a >> 40u128) & 0xff) as u8 == ((b >> 40u128) & 0xff) as u8,
            ((a >> 32u128) & 0xff) as u8 == ((b >> 32u128) & 0xff) as u8,
            ((a >> 24u128) & 0xff) as u8 == ((b >> 24u128) & 0xff) as u8,
            ((a >> 16u128) & 0xff) as u8 == ((b >> 16u128) & 0xff) as u8,
            ((a >> 8u128) & 0xff) as u8 == ((b >> 8u128) & 0xff) as u8,
            ((a >> 0u128) & 0xff) as u8 == ((b >> 0u128) & 0xff) as u8,
    ;
}

/// Two byte strings of the same length, each followed by a second string,
/// give the same whole only if both parts agree.
pub proof fn lemma_concat_injective(a: Seq<u8>, b: Seq<u8>, c: Seq<u8>, d: Seq<u8>)
    requires
        a.len() == c.len(),
        a + b == c + d,
    ensures
        a == c,
        b == d,
{
    assert((a + b).take(a.len() as int) =~= a);
    assert((c + d).take(c.len() as int) =~= c);
    assert((a + b).skip(a.len() as int) =~= b);
    assert((c + d).skip(c.len() as int) =~= d);
}

} // verus!
