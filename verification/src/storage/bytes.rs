//! Fixed-width integer encodings and the lexicographic order of byte strings.
//!
//! Keys are stored as byte strings and the store walks them in lexicographic
//! order. A field that is meant to order the table is therefore written most
//! significant byte first; a field that only identifies a record may be
//! written least significant byte first.

use vstd::prelude::*;

verus! {

/// `2^64`.
pub open spec fn two_64() -> int {
    0x1_0000_0000_0000_0000
}

/// Strict lexicographic order of byte strings: the first byte that differs
/// decides, and a proper prefix comes first.
pub open spec fn lex_lt(a: Seq<u8>, b: Seq<u8>) -> bool
    decreases a.len(),
{
    if b.len() == 0 {
        false
    } else if a.len() == 0 {
        true
    } else if a[0] != b[0] {
        a[0] < b[0]
    } else {
        lex_lt(a.drop_first(), b.drop_first())
    }
}

/// Lexicographic order of byte strings.
pub open spec fn lex_le(a: Seq<u8>, b: Seq<u8>) -> bool {
    a == b || lex_lt(a, b)
}

/// The eight bytes of `x`, least significant first.
#[verifier::opaque]
pub open spec fn le_u64(x: u64) -> Seq<u8> {
    seq![
        (x % 256) as u8,
        (x / 256 % 256) as u8,
        (x / 256 / 256 % 256) as u8,
        (x / 256 / 256 / 256 % 256) as u8,
        (x / 256 / 256 / 256 / 256 % 256) as u8,
        (x / 256 / 256 / 256 / 256 / 256 % 256) as u8,
        (x / 256 / 256 / 256 / 256 / 256 / 256 % 256) as u8,
        (x / 256 / 256 / 256 / 256 / 256 / 256 / 256 % 256) as u8,
    ]
}

/// The eight bytes of `x`, most significant first.
#[verifier::opaque]
pub open spec fn be_u64(x: u64) -> Seq<u8> {
    seq![
        (x / 256 / 256 / 256 / 256 / 256 / 256 / 256 % 256) as u8,
        (x / 256 / 256 / 256 / 256 / 256 / 256 % 256) as u8,
        (x / 256 / 256 / 256 / 256 / 256 % 256) as u8,
        (x / 256 / 256 / 256 / 256 % 256) as u8,
        (x / 256 / 256 / 256 % 256) as u8,
        (x / 256 / 256 % 256) as u8,
        (x / 256 % 256) as u8,
        (x % 256) as u8,
    ]
}

/// The four bytes of `x`, least significant first.
#[verifier::opaque]
pub open spec fn le_u32(x: u32) -> Seq<u8> {
    seq![
        (x % 256) as u8,
        (x / 256 % 256) as u8,
        (x / 256 / 256 % 256) as u8,
        (x / 256 / 256 / 256 % 256) as u8,
    ]
}

/// The upper half of a 128-bit integer.
pub open spec fn hi_u128(x: u128) -> u64 {
    (x / 0x1_0000_0000_0000_0000) as u64
}

/// The lower half of a 128-bit integer.
pub open spec fn lo_u128(x: u128) -> u64 {
    (x % 0x1_0000_0000_0000_0000) as u64
}

/// The sixteen bytes of `x`, least significant first.
pub open spec fn le_u128(x: u128) -> Seq<u8> {
    le_u64(lo_u128(x)) + le_u64(hi_u128(x))
}

/// The sixteen bytes of `x`, most significant first.
pub open spec fn be_u128(x: u128) -> Seq<u8> {
    be_u64(hi_u128(x)) + be_u64(lo_u128(x))
}

/// The integer that eight bytes spell, least significant byte first.
pub open spec fn le_value8(s: Seq<u8>) -> int {
    s[0] + 256 * (s[1] + 256 * (s[2] + 256 * (s[3] + 256 * (s[4] + 256 * (s[5] + 256 * (s[6] + 256
        * s[7]))))))
}

/// The integer that eight bytes spell, most significant byte first.
pub open spec fn be_value8(s: Seq<u8>) -> int {
    s[7] + 256 * (s[6] + 256 * (s[5] + 256 * (s[4] + 256 * (s[3] + 256 * (s[2] + 256 * (s[1] + 256
        * s[0]))))))
}

/// The integer that four bytes spell, least significant byte first.
pub open spec fn le_value4(s: Seq<u8>) -> int {
    s[0] + 256 * (s[1] + 256 * (s[2] + 256 * s[3]))
}

/// The integer that sixteen bytes spell, least significant byte first.
pub open spec fn le_value16(s: Seq<u8>) -> int {
    le_value8(s.subrange(0, 8)) + two_64() * le_value8(s.subrange(8, 16))
}

/// The integer that sixteen bytes spell, most significant byte first.
pub open spec fn be_value16(s: Seq<u8>) -> int {
    two_64() * be_value8(s.subrange(0, 8)) + be_value8(s.subrange(8, 16))
}

/// Encodes `x` least significant byte first.
pub fn u64_to_le(x: u64) -> (raw: [u8; 8])
    ensures
        raw@ == le_u64(x),
{
    let x1: u64 = x / 256;
    let x2: u64 = x1 / 256;
    let x3: u64 = x2 / 256;
    let x4: u64 = x3 / 256;
    let x5: u64 = x4 / 256;
    let x6: u64 = x5 / 256;
    let x7: u64 = x6 / 256;
    let raw: [u8; 8] = [
        (x % 256) as u8,
        (x1 % 256) as u8,
        (x2 % 256) as u8,
        (x3 % 256) as u8,
        (x4 % 256) as u8,
        (x5 % 256) as u8,
        (x6 % 256) as u8,
        (x7 % 256) as u8,
    ];
    assert(raw@ =~= le_u64(x)) by {
        reveal(le_u64);
    }
    raw
}

/// Encodes `x` most significant byte first.
pub fn u64_to_be(x: u64) -> (raw: [u8; 8])
    ensures
        raw@ == be_u64(x),
{
    let x1: u64 = x / 256;
    let x2: u64 = x1 / 256;
    let x3: u64 = x2 / 256;
    let x4: u64 = x3 / 256;
    let x5: u64 = x4 / 256;
    let x6: u64 = x5 / 256;
    let x7: u64 = x6 / 256;
    let raw: [u8; 8] = [
        (x7 % 256) as u8,
        (x6 % 256) as u8,
        (x5 % 256) as u8,
        (x4 % 256) as u8,
        (x3 % 256) as u8,
        (x2 % 256) as u8,
        (x1 % 256) as u8,
        (x % 256) as u8,
    ];
    assert(raw@ =~= be_u64(x)) by {
        reveal(be_u64);
    }
    raw
}

/// Encodes `x` least significant byte first.
pub fn u32_to_le(x: u32) -> (raw: [u8; 4])
    ensures
        raw@ == le_u32(x),
{
    let x1: u32 = x / 256;
    let x2: u32 = x1 / 256;
    let x3: u32 = x2 / 256;
    let raw: [u8; 4] = [(x % 256) as u8, (x1 % 256) as u8, (x2 % 256) as u8, (x3 % 256) as u8];
    assert(raw@ =~= le_u32(x)) by {
        reveal(le_u32);
    }
    raw
}

/// Reads eight bytes, least significant first.
pub fn u64_from_le(raw: &[u8; 8]) -> (x: u64)
    ensures
        x == le_value8(raw@),
{
    let mut x: u64 = raw[7] as u64;
    x = x * 256 + raw[6] as u64;
    x = x * 256 + raw[5] as u64;
    x = x * 256 + raw[4] as u64;
    x = x * 256 + raw[3] as u64;
    x = x * 256 + raw[2] as u64;
    x = x * 256 + raw[1] as u64;
    x = x * 256 + raw[0] as u64;
    x
}

/// Reads eight bytes, most significant first.
pub fn u64_from_be(raw: &[u8; 8]) -> (x: u64)
    ensures
        x == be_value8(raw@),
{
    let mut x: u64 = raw[0] as u64;
    x = x * 256 + raw[1] as u64;
    x = x * 256 + raw[2] as u64;
    x = x * 256 + raw[3] as u64;
    x = x * 256 + raw[4] as u64;
    x = x * 256 + raw[5] as u64;
    x = x * 256 + raw[6] as u64;
    x = x * 256 + raw[7] as u64;
    x
}

/// Reads four bytes, least significant first.
pub fn u32_from_le(raw: &[u8; 4]) -> (x: u32)
    ensures
        x == le_value4(raw@),
{
    let mut x: u32 = raw[3] as u32;
    x = x * 256 + raw[2] as u32;
    x = x * 256 + raw[1] as u32;
    x = x * 256 + raw[0] as u32;
    x
}

/// Reading back what was written gives the integer again, in either byte
/// order.
pub proof fn lemma_u64_round_trip(x: u64)
    ensures
        le_u64(x).len() == 8,
        be_u64(x).len() == 8,
        le_value8(le_u64(x)) == x,
        be_value8(be_u64(x)) == x,
{
    reveal(le_u64);
    reveal(be_u64);
}

/// Reading back what was written gives the integer again.
pub proof fn lemma_u32_round_trip(x: u32)
    ensures
        le_u32(x).len() == 4,
        le_value4(le_u32(x)) == x,
{
    reveal(le_u32);
}

/// Encodes `x` most significant byte first.
pub fn u128_to_be(x: u128) -> (raw: [u8; 16])
    ensures
        raw@ == be_u128(x),
{
    let hi: u64 = (x / 0x1_0000_0000_0000_0000) as u64;
    let lo: u64 = (x % 0x1_0000_0000_0000_0000) as u64;
    let h = u64_to_be(hi);
    let l = u64_to_be(lo);
    let raw: [u8; 16] = [
        h[0], h[1], h[2], h[3], h[4], h[5], h[6], h[7],
        l[0], l[1], l[2], l[3], l[4], l[5], l[6], l[7],
    ];
    assert(raw@ =~= be_u128(x));
    raw
}

/// Encodes `x` least significant byte first.
pub fn u128_to_le(x: u128) -> (raw: [u8; 16])
    ensures
        raw@ == le_u128(x),
{
    let hi: u64 = (x / 0x1_0000_0000_0000_0000) as u64;
    let lo: u64 = (x % 0x1_0000_0000_0000_0000) as u64;
    let h = u64_to_le(hi);
    let l = u64_to_le(lo);
    let raw: [u8; 16] = [
        l[0], l[1], l[2], l[3], l[4], l[5], l[6], l[7],
        h[0], h[1], h[2], h[3], h[4], h[5], h[6], h[7],
    ];
    assert(raw@ =~= le_u128(x));
    raw
}

/// Reads sixteen bytes, most significant first.
pub fn u128_from_be(raw: &[u8; 16]) -> (x: u128)
    ensures
        x == be_value16(raw@),
{
    let h: [u8; 8] = [raw[0], raw[1], raw[2], raw[3], raw[4], raw[5], raw[6], raw[7]];
    let l: [u8; 8] = [raw[8], raw[9], raw[10], raw[11], raw[12], raw[13], raw[14], raw[15]];
    assert(h@ =~= raw@.subrange(0, 8));
    assert(l@ =~= raw@.subrange(8, 16));
    let hi = u64_from_be(&h);
    let lo = u64_from_be(&l);
    (hi as u128) * 0x1_0000_0000_0000_0000 + (lo as u128)
}

/// Reads sixteen bytes, least significant first.
pub fn u128_from_le(raw: &[u8; 16]) -> (x: u128)
    ensures
        x == le_value16(raw@),
{
    let l: [u8; 8] = [raw[0], raw[1], raw[2], raw[3], raw[4], raw[5], raw[6], raw[7]];
    let h: [u8; 8] = [raw[8], raw[9], raw[10], raw[11], raw[12], raw[13], raw[14], raw[15]];
    assert(l@ =~= raw@.subrange(0, 8));
    assert(h@ =~= raw@.subrange(8, 16));
    let hi = u64_from_le(&h);
    let lo = u64_from_le(&l);
    (hi as u128) * 0x1_0000_0000_0000_0000 + (lo as u128)
}

/// Reading back what was written gives the integer again, in either byte
/// order.
pub proof fn lemma_u128_round_trip(x: u128)
    ensures
        le_u128(x).len() == 16,
        be_u128(x).len() == 16,
        le_value16(le_u128(x)) == x,
        be_value16(be_u128(x)) == x,
{
    let hi = hi_u128(x);
    let lo = lo_u128(x);
    assert(x == two_64() * hi + lo);
    let l = le_u64(lo);
    let h = le_u64(hi);
    assert(le_value8(l) == lo && le_value8(h) == hi) by {
        lemma_u64_round_trip(hi);
        lemma_u64_round_trip(lo);
    }
    lemma_u64_round_trip(hi);
    lemma_u64_round_trip(lo);
    assert((l + h).subrange(0, 8) == l && (l + h).subrange(8, 16) == h) by {
        assert(l.len() == 8 && h.len() == 8);
        assert((l + h).subrange(0, 8) =~= l);
        assert((l + h).subrange(8, 16) =~= h);
    }
    let bl = be_u64(lo);
    let bh = be_u64(hi);
    assert(be_value8(bl) == lo && be_value8(bh) == hi) by {
        lemma_u64_round_trip(hi);
        lemma_u64_round_trip(lo);
    }
    assert((bh + bl).subrange(0, 8) == bh && (bh + bl).subrange(8, 16) == bl) by {
        assert(bl.len() == 8 && bh.len() == 8);
        assert((bh + bl).subrange(0, 8) =~= bh);
        assert((bh + bl).subrange(8, 16) =~= bl);
    }
}

/// The integer that a byte string of any length spells, most significant
/// byte first.
pub open spec fn be_value(s: Seq<u8>) -> nat
    decreases s.len(),
{
    if s.len() == 0 {
        0
    } else {
        256 * be_value(s.drop_last()) + s.last() as nat
    }
}

pub proof fn lemma_be_value_push(s: Seq<u8>, b: u8)
    ensures
        be_value(s.push(b)) == 256 * be_value(s) + b as nat,
{
    assert(s.push(b).drop_last() =~= s);
}

/// Most significant byte first, strings of one length are ordered as the
/// integers that they spell.
pub proof fn lemma_be_value_order(s: Seq<u8>, t: Seq<u8>)
    requires
        s.len() == t.len(),
    ensures
        lex_lt(s, t) <==> be_value(s) < be_value(t),
        s == t <==> be_value(s) == be_value(t),
    decreases s.len(),
{
    if s.len() == 0 {
        assert(s =~= t);
    } else {
        let s1 = s.drop_last();
        let t1 = t.drop_last();
        let x = seq![s.last()];
        let y = seq![t.last()];
        lemma_be_value_order(s1, t1);
        assert(s =~= s1 + x);
        assert(t =~= t1 + y);
        lemma_lex_lt_concat(s1, x, t1, y);
        reveal_with_fuel(lex_lt, 2);
        assert(lex_lt(x, y) <==> s.last() < t.last());
        if s1 == t1 && s.last() == t.last() {
            assert(s =~= t);
        }
    }
}

/// The eight bytes of an integer, most significant first, spell it.
pub proof fn lemma_be_u64_value(x: u64)
    ensures
        be_value(be_u64(x)) == x,
{
    reveal(be_u64);
    let b = be_u64(x);
    let e = Seq::<u8>::empty();
    lemma_be_value_push(e, b[0]);
    lemma_be_value_push(e.push(b[0]), b[1]);
    lemma_be_value_push(e.push(b[0]).push(b[1]), b[2]);
    lemma_be_value_push(e.push(b[0]).push(b[1]).push(b[2]), b[3]);
    lemma_be_value_push(e.push(b[0]).push(b[1]).push(b[2]).push(b[3]), b[4]);
    lemma_be_value_push(e.push(b[0]).push(b[1]).push(b[2]).push(b[3]).push(b[4]), b[5]);
    lemma_be_value_push(e.push(b[0]).push(b[1]).push(b[2]).push(b[3]).push(b[4]).push(b[5]), b[6]);
    lemma_be_value_push(
        e.push(b[0]).push(b[1]).push(b[2]).push(b[3]).push(b[4]).push(b[5]).push(b[6]),
        b[7],
    );
    assert(b =~= e.push(b[0]).push(b[1]).push(b[2]).push(b[3]).push(b[4]).push(b[5]).push(
        b[6],
    ).push(b[7]));
}

/// The sixteen bytes of an integer, most significant first, spell it.
pub proof fn lemma_be_u128_value(x: u128)
    ensures
        be_value(be_u128(x)) == x,
{
    let hi = hi_u128(x);
    let lo = lo_u128(x);
    let p = be_u64(hi);
    let q = be_u64(lo);
    lemma_be_u64_value(hi);
    lemma_be_u64_value(lo);
    lemma_u64_round_trip(hi);
    lemma_u64_round_trip(lo);
    lemma_be_value_append8(p, q);
    lemma_be_value_append8(Seq::<u8>::empty(), q);
    assert(Seq::<u8>::empty() + q =~= q);
    assert(x == two_64() * hi + lo);
}

/// Eight bytes behind a string shift what the string spells by eight
/// bytes and add what they spell.
pub proof fn lemma_be_value_append8(p: Seq<u8>, q: Seq<u8>)
    requires
        q.len() == 8,
    ensures
        be_value(p + q) == two_64() * be_value(p) + be_value(Seq::<u8>::empty() + q),
{
    let e = Seq::<u8>::empty();
    assert(p + q.take(0) =~= p);
    assert(e + q.take(0) =~= e);
    assert(q.take(8) =~= q);
    lemma_be_value_step(p, q, 0);
    lemma_be_value_step(p, q, 1);
    lemma_be_value_step(p, q, 2);
    lemma_be_value_step(p, q, 3);
    lemma_be_value_step(p, q, 4);
    lemma_be_value_step(p, q, 5);
    lemma_be_value_step(p, q, 6);
    lemma_be_value_step(p, q, 7);
    lemma_be_value_step(e, q, 0);
    lemma_be_value_step(e, q, 1);
    lemma_be_value_step(e, q, 2);
    lemma_be_value_step(e, q, 3);
    lemma_be_value_step(e, q, 4);
    lemma_be_value_step(e, q, 5);
    lemma_be_value_step(e, q, 6);
    lemma_be_value_step(e, q, 7);
}

proof fn lemma_be_value_step(base: Seq<u8>, q: Seq<u8>, k: int)
    requires
        0 <= k < q.len(),
    ensures
        be_value(base + q.take(k + 1)) == 256 * be_value(base + q.take(k)) + q[k],
{
    assert(base + q.take(k + 1) =~= (base + q.take(k)).push(q[k]));
    lemma_be_value_push(base + q.take(k), q[k]);
}

/// Most significant byte first, the order of the encodings is the order of
/// the integers.
pub proof fn lemma_be_u64_order(a: u64, b: u64)
    ensures
        lex_lt(be_u64(a), be_u64(b)) <==> a < b,
        be_u64(a) == be_u64(b) <==> a == b,
{
    lemma_be_u64_value(a);
    lemma_be_u64_value(b);
    lemma_u64_round_trip(a);
    lemma_u64_round_trip(b);
    lemma_be_value_order(be_u64(a), be_u64(b));
}

proof fn lemma_same_head_and_tail(p: Seq<u8>, q: Seq<u8>)
    requires
        p.len() > 0,
        q.len() > 0,
        p[0] == q[0],
        p.drop_first() == q.drop_first(),
    ensures
        p == q,
{
    assert(p.len() == q.len()) by {
        assert(p.drop_first().len() == p.len() - 1);
        assert(q.drop_first().len() == q.len() - 1);
    }
    assert forall|i: int| 0 <= i < p.len() implies p[i] == q[i] by {
        if i > 0 {
            assert(p[i] == p.drop_first()[i - 1]);
            assert(q[i] == q.drop_first()[i - 1]);
        }
    }
    assert(p =~= q);
}

/// Two strings that start with prefixes of one length compare by the
/// prefixes first, and by what follows them where the prefixes agree.
pub proof fn lemma_lex_lt_concat(p: Seq<u8>, s: Seq<u8>, q: Seq<u8>, t: Seq<u8>)
    requires
        p.len() == q.len(),
    ensures
        lex_lt(p + s, q + t) <==> (lex_lt(p, q) || (p == q && lex_lt(s, t))),
    decreases p.len(),
{
    if p.len() == 0 {
        assert(p + s =~= s);
        assert(q + t =~= t);
        assert(p =~= q);
    } else {
        let a = p + s;
        let b = q + t;
        assert(a[0] == p[0] && b[0] == q[0]);
        assert(a.drop_first() =~= p.drop_first() + s);
        assert(b.drop_first() =~= q.drop_first() + t);
        lemma_lex_lt_concat(p.drop_first(), s, q.drop_first(), t);
        if p[0] == q[0] && p.drop_first() == q.drop_first() {
            lemma_same_head_and_tail(p, q);
        }
    }
}

/// Two strings that start with prefixes of one length are equal where the
/// prefixes are equal and what follows them is equal.
pub proof fn lemma_concat_eq(p: Seq<u8>, s: Seq<u8>, q: Seq<u8>, t: Seq<u8>)
    requires
        p.len() == q.len(),
    ensures
        p + s == q + t <==> p == q && s == t,
{
    if p + s == q + t {
        let n = p.len() as int;
        assert((p + s).subrange(0, n) =~= p);
        assert((q + t).subrange(0, n) =~= q);
        assert((p + s).len() == n + s.len());
        assert((q + t).len() == n + t.len());
        assert((p + s).subrange(n, n + s.len()) =~= s);
        assert((q + t).subrange(n, n + t.len()) =~= t);
    }
}

/// No string comes before one that comes before it.
pub proof fn lemma_lex_lt_asymmetric(a: Seq<u8>, b: Seq<u8>)
    ensures
        !(lex_lt(a, b) && lex_lt(b, a)),
    decreases a.len(),
{
    if a.len() > 0 && b.len() > 0 && a[0] == b[0] {
        lemma_lex_lt_asymmetric(a.drop_first(), b.drop_first());
    }
}

/// What comes before a string comes before what the string comes before.
pub proof fn lemma_lex_lt_transitive(a: Seq<u8>, b: Seq<u8>, c: Seq<u8>)
    requires
        lex_lt(a, b),
        lex_lt(b, c),
    ensures
        lex_lt(a, c),
    decreases a.len(),
{
    if a.len() > 0 && b.len() > 0 && c.len() > 0 && a[0] == b[0] && b[0] == c[0] {
        lemma_lex_lt_transitive(a.drop_first(), b.drop_first(), c.drop_first());
    }
}

/// Of two strings one comes before the other, or they are the same.
pub proof fn lemma_lex_total(a: Seq<u8>, b: Seq<u8>)
    ensures
        lex_lt(a, b) || lex_lt(b, a) || a == b,
    decreases a.len(),
{
    if a.len() > 0 && b.len() > 0 && a[0] == b[0] {
        lemma_lex_total(a.drop_first(), b.drop_first());
        if a.drop_first() == b.drop_first() {
            lemma_same_head_and_tail(a, b);
        }
    } else if a.len() == 0 && b.len() == 0 {
        assert(a =~= b);
    }
}

/// Of two strings of one length exactly one holds: the first comes before
/// the second, they are equal, or the second comes before the first.
pub proof fn lemma_lex_trichotomy(a: Seq<u8>, b: Seq<u8>)
    requires
        a.len() == b.len(),
    ensures
        lex_lt(a, b) || a == b || lex_lt(b, a),
        !(lex_lt(a, b) && lex_lt(b, a)),
        !(lex_lt(a, b) && a == b),
        lex_le(a, b) <==> !lex_lt(b, a),
    decreases a.len(),
{
    if a.len() == 0 {
        assert(a =~= b);
    } else {
        lemma_lex_trichotomy(a.drop_first(), b.drop_first());
        if a[0] == b[0] && a.drop_first() == b.drop_first() {
            lemma_same_head_and_tail(a, b);
        }
    }
}

/// Most significant byte first, the order of the encodings is the order of
/// the integers.
pub proof fn lemma_be_u128_order(a: u128, b: u128)
    ensures
        lex_lt(be_u128(a), be_u128(b)) <==> a < b,
        be_u128(a) == be_u128(b) <==> a == b,
{
    let (ha, la) = (hi_u128(a), lo_u128(a));
    let (hb, lb) = (hi_u128(b), lo_u128(b));
    let (p, s) = (be_u64(ha), be_u64(la));
    let (q, t) = (be_u64(hb), be_u64(lb));
    assert(p.len() == 8 && q.len() == 8 && s.len() == 8 && t.len() == 8) by {
        lemma_u64_round_trip(ha);
        lemma_u64_round_trip(la);
        lemma_u64_round_trip(hb);
        lemma_u64_round_trip(lb);
    }
    assert(lex_lt(p, q) <==> ha < hb) by {
        lemma_be_u64_order(ha, hb);
    }
    assert(p == q <==> ha == hb) by {
        lemma_be_u64_order(ha, hb);
    }
    assert(lex_lt(s, t) <==> la < lb) by {
        lemma_be_u64_order(la, lb);
    }
    assert(s == t <==> la == lb) by {
        lemma_be_u64_order(la, lb);
    }
    lemma_lex_lt_concat(p, s, q, t);
    assert(a == two_64() * ha + la && b == two_64() * hb + lb);
    lemma_concat_eq(p, s, q, t);
}

/// Appends `more` to `buf`.
pub fn append_bytes(buf: &mut Vec<u8>, more: &[u8])
    ensures
        final(buf)@ == old(buf)@ + more@,
{
    let mut i: usize = 0;
    while i < more.len()
        invariant
            i <= more.len(),
            buf@ == old(buf)@ + more@.take(i as int),
        decreases more.len() - i,
    {
        buf.push(more[i]);
        assert(more@.take(i + 1) =~= more@.take(i as int).push(more@[i as int]));
        i += 1;
    }
    assert(more@.take(more.len() as int) =~= more@);
}

/// Whether `a` comes strictly before `b` in lexicographic order.
pub fn lex_before(a: &[u8], b: &[u8]) -> (r: bool)
    ensures
        r == lex_lt(a@, b@),
{
    let mut i: usize = 0;
    assert(a@.skip(0) =~= a@);
    assert(b@.skip(0) =~= b@);
    while i < a.len() && i < b.len()
        invariant
            i <= a.len(),
            i <= b.len(),
            lex_lt(a@, b@) == lex_lt(a@.skip(i as int), b@.skip(i as int)),
        decreases a.len() - i,
    {
        proof {
            let x = a@.skip(i as int);
            let y = b@.skip(i as int);
            assert(x.drop_first() =~= a@.skip(i + 1));
            assert(y.drop_first() =~= b@.skip(i + 1));
        }
        if a[i] != b[i] {
            return a[i] < b[i];
        }
        i += 1;
    }
    i < b.len()
}

} // verus!
