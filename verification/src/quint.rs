//! Proquint encoding of 16-bit values, as the `proquint` crate computes it.
use vstd::prelude::*;
use proquint::Quintable;

verus! {

/// The consonant that encodes the 4-bit value `d`.
pub open spec fn cons_char(d: u16) -> char {
    if d == 0 { 'b' } else if d == 1 { 'd' } else if d == 2 { 'f' } else if d == 3 { 'g' }
    else if d == 4 { 'h' } else if d == 5 { 'j' } else if d == 6 { 'k' } else if d == 7 { 'l' }
    else if d == 8 { 'm' } else if d == 9 { 'n' } else if d == 10 { 'p' } else if d == 11 { 'r' }
    else if d == 12 { 's' } else if d == 13 { 't' } else if d == 14 { 'v' } else { 'z' }
}

/// The vowel that encodes the 2-bit value `d`.
pub open spec fn vowel_char(d: u16) -> char {
    if d == 0 { 'a' } else if d == 1 { 'i' } else if d == 2 { 'o' } else { 'u' }
}

/// The 4-bit value of a consonant, if `c` is one.
pub open spec fn cons_value(c: char) -> Option<u16> {
    if c == 'b' { Some(0u16) } else if c == 'd' { Some(1u16) } else if c == 'f' { Some(2u16) }
    else if c == 'g' { Some(3u16) } else if c == 'h' { Some(4u16) } else if c == 'j' { Some(5u16) }
    else if c == 'k' { Some(6u16) } else if c == 'l' { Some(7u16) } else if c == 'm' { Some(8u16) }
    else if c == 'n' { Some(9u16) } else if c == 'p' { Some(10u16) } else if c == 'r' { Some(11u16) }
    else if c == 's' { Some(12u16) } else if c == 't' { Some(13u16) } else if c == 'v' { Some(14u16) }
    else if c == 'z' { Some(15u16) } else { None }
}

/// The 2-bit value of a vowel, if `c` is one.
pub open spec fn vowel_value(c: char) -> Option<u16> {
    if c == 'a' { Some(0u16) } else if c == 'i' { Some(1u16) } else if c == 'o' { Some(2u16) }
    else if c == 'u' { Some(3u16) } else { None }
}

/// The proquint of a 16-bit value: consonant, vowel, consonant, vowel,
/// consonant, from the high bits down (4, 2, 4, 2 and 4 bits).
pub open spec fn quint_encode(v: u16) -> Seq<char> {
    seq![
        cons_char(v >> 12u16),
        vowel_char((v >> 10u16) & 3u16),
        cons_char((v >> 6u16) & 15u16),
        vowel_char((v >> 4u16) & 3u16),
        cons_char(v & 15u16),
    ]
}

/// One decoding step: a consonant shifts in 4 bits, a vowel 2 bits, and any
/// other character is skipped; bits shifted past 16 are lost.
pub open spec fn quint_step(acc: u16, c: char) -> u16 {
    match cons_value(c) {
        Some(d) => ((acc as int * 16 + d) % 65536) as u16,
        None => match vowel_value(c) {
            Some(d) => ((acc as int * 4 + d) % 65536) as u16,
            None => acc,
        },
    }
}

/// The 16-bit value that `proquint::from_quint::<u16>` decodes from `s`.
pub open spec fn quint_decode(s: Seq<char>) -> u16
    decreases s.len(),
{
    if s.len() == 0 {
        0
    } else {
        quint_step(quint_decode(s.drop_last()), s.last())
    }
}

/// `proquint::Quintable::to_quint` on a `u16`: the five letters of the value's
/// proquint, as `quint_encode` states them.
#[verifier::external_body]
pub(crate) fn to_quint(v: u16) -> (r: Vec<char>)
    ensures
        r@ == quint_encode(v),
{
    v.to_quint().chars().collect()
}

/// `proquint::from_quint::<u16>`, of whose result the value is kept (the
/// count of decoded bits is dropped): `quint_decode` states it.
#[verifier::external_body]
pub(crate) fn from_quint(s: &[char]) -> (r: u16)
    ensures
        r == quint_decode(s@),
{
    let text: String = s.iter().collect();
    proquint::from_quint::<u16>(&text).0
}

proof fn lemma_cons_roundtrip(d: u16)
    requires
        d < 16,
    ensures
        cons_value(cons_char(d)) == Some(d),
{
}

proof fn lemma_vowel_roundtrip(d: u16)
    requires
        d < 4,
    ensures
        vowel_value(vowel_char(d)) == Some(d),
{
}

/// Decoding the proquint of a value gives the value back.
pub proof fn lemma_decode_encode(v: u16)
    ensures
        quint_decode(quint_encode(v)) == v,
{
    let a = v >> 12u16;
    let b = (v >> 10u16) & 3u16;
    let c = (v >> 6u16) & 15u16;
    let d = (v >> 4u16) & 3u16;
    let e = v & 15u16;
    assert(a < 16 && b < 4 && c < 16 && d < 4 && e < 16) by (bit_vector)
        requires
            a == v >> 12u16,
            b == (v >> 10u16) & 3u16,
            c == (v >> 6u16) & 15u16,
            d == (v >> 4u16) & 3u16,
            e == v & 15u16,
    ;
    lemma_cons_roundtrip(a);
    lemma_vowel_roundtrip(b);
    lemma_cons_roundtrip(c);
    lemma_vowel_roundtrip(d);
    lemma_cons_roundtrip(e);
    let s = quint_encode(v);
    assert(s.drop_last().drop_last().drop_last().drop_last().drop_last() =~= Seq::<char>::empty());
    let x1 = quint_step(0, s[0]);
    assert(quint_decode(s.take(1)) == x1) by {
        assert(s.take(1).drop_last() =~= Seq::<char>::empty());
        assert(quint_decode(Seq::<char>::empty()) == 0);
        assert(s.take(1).last() == s[0]);
    }
    let x2 = quint_step(x1, s[1]);
    assert(quint_decode(s.take(2)) == x2) by {
        assert(s.take(2).drop_last() =~= s.take(1));
    }
    let x3 = quint_step(x2, s[2]);
    assert(quint_decode(s.take(3)) == x3) by {
        assert(s.take(3).drop_last() =~= s.take(2));
    }
    let x4 = quint_step(x3, s[3]);
    assert(quint_decode(s.take(4)) == x4) by {
        assert(s.take(4).drop_last() =~= s.take(3));
    }
    let x5 = quint_step(x4, s[4]);
    assert(quint_decode(s) == x5) by {
        assert(s.drop_last() =~= s.take(4));
    }
    assert(x1 == a);
    assert(x2 == ((a as int * 4 + b) % 65536) as u16);
    assert(x3 == ((x2 as int * 16 + c) % 65536) as u16);
    assert(x4 == ((x3 as int * 4 + d) % 65536) as u16);
    assert(x5 == ((x4 as int * 16 + e) % 65536) as u16);
    assert(((((((((a as u64 * 4 + b as u64) % 65536) * 16 + c as u64) % 65536) * 4 + d as u64)
        % 65536) * 16 + e as u64) % 65536) == v as u64) by (bit_vector)
        requires
            a == v >> 12u16,
            b == (v >> 10u16) & 3u16,
            c == (v >> 6u16) & 15u16,
            d == (v >> 4u16) & 3u16,
            e == v & 15u16,
    ;
}

/// Distinct values have distinct proquints.
pub proof fn lemma_encode_injective(a: u16, b: u16)
    ensures
        a != b ==> quint_encode(a) != quint_encode(b),
{
    lemma_decode_encode(a);
    lemma_decode_encode(b);
}

} // verus!
