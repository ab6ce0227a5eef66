//! Big-endian encoding of 64-bit integers and lexicographic order on byte
//! sequences: the primitive vocabulary of the key layout.

use vstd::prelude::*;

verus! {

/// The eight-byte big-endian encoding of `n`.
pub open spec fn be8(n: u64) -> Seq<u8> {
    seq![
        ((n >> 56) & 0xff) as u8,
        ((n >> 48) & 0xff) as u8,
        ((n >> 40) & 0xff) as u8,
        ((n >> 32) & 0xff) as u8,
        ((n >> 24) & 0xff) as u8,
        ((n >> 16) & 0xff) as u8,
        ((n >> 8) & 0xff) as u8,
        (n & 0xff) as u8,
    ]
}

/// The integer read back from an eight-byte big-endian buffer.
pub open spec fn be_val(s: Seq<u8>) -> u64
    recommends
        s.len() == 8,
{
    (((s[0] as u64) << 56) | ((s[1] as u64) << 48) | ((s[2] as u64) << 40)
        | ((s[3] as u64) << 32) | ((s[4] as u64) << 24) | ((s[5] as u64) << 16)
        | ((s[6] as u64) << 8) | (s[7] as u64)) as u64
}

/// Encode `n` as its eight big-endian bytes.
pub fn u64_to_be_bytes(n: u64) -> (r: Vec<u8>)
    ensures
        r@ == be8(n),
        r@.len() == 8,
{
    let mut v: Vec<u8> = Vec::new();
    v.push(((n >> 56) & 0xff) as u8);
    v.push(((n >> 48) & 0xff) as u8);
    v.push(((n >> 40) & 0xff) as u8);
    v.push(((n >> 32) & 0xff) as u8);
    v.push(((n >> 24) & 0xff) as u8);
    v.push(((n >> 16) & 0xff) as u8);
    v.push(((n >> 8) & 0xff) as u8);
    v.push((n & 0xff) as u8);
    proof {
        assert(v@ =~= be8(n));
    }
    v
}

/// Read a 64-bit integer from an eight-byte big-endian buffer.
pub fn buffer_to_u64(buffer: &[u8]) -> (r: u64)
    requires
        buffer@.len() == 8,
    ensures
        r == be_val(buffer@),
{
    ((buffer[0] as u64) << 56) | ((buffer[1] as u64) << 48) | ((buffer[2] as u64) << 40)
        | ((buffer[3] as u64) << 32) | ((buffer[4] as u64) << 24) | ((buffer[5] as u64) << 16)
        | ((buffer[6] as u64) << 8) | (buffer[7] as u64)
}

/// Decoding inverts encoding: the eight big-endian bytes of `n` read back
/// as `n`.
pub proof fn lemma_be8_roundtrip(n: u64)
    ensures
        be_val(be8(n)) == n,
{
    let s = be8(n);
    assert(s[0] == ((n >> 56) & 0xff) as u8);
    assert(s[1] == ((n >> 48) & 0xff) as u8);
    assert(s[2] == ((n >> 40) & 0xff) as u8);
    assert(s[3] == ((n >> 32) & 0xff) as u8);
    assert(s[4] == ((n >> 24) & 0xff) as u8);
    assert(s[5] == ((n >> 16) & 0xff) as u8);
    assert(s[6] == ((n >> 8) & 0xff) as u8);
    assert(s[7] == (n & 0xff) as u8);
    assert((((((n >> 56) & 0xff) as u8) as u64) << 56
        | ((((n >> 48) & 0xff) as u8) as u64) << 48
        | ((((n >> 40) & 0xff) as u8) as u64) << 40
        | ((((n >> 32) & 0xff) as u8) as u64) << 32
        | ((((n >> 24) & 0xff) as u8) as u64) << 24
        | ((((n >> 16) & 0xff) as u8) as u64) << 16
        | ((((n >> 8) & 0xff) as u8) as u64) << 8
        | (((n & 0xff) as u8) as u64)) as u64 == n) by (bit_vector);
}

/// The big-endian encoding is injective.
pub proof fn lemma_be8_injective(a: u64, b: u64)
    requires
        be8(a) == be8(b),
    ensures
        a == b,
{
    lemma_be8_roundtrip(a);
    lemma_be8_roundtrip(b);
}

/// Strict lexicographic order on byte sequences: the order in which an
/// ordered key-value database walks its keys.
pub open spec fn lex_lt(a: Seq<u8>, b: Seq<u8>) -> bool
    decreases a.len(),
{
    if b.len() == 0 {
        false
    } else if a.len() == 0 {
        true
    } else if a[0] < b[0] {
        true
    } else if a[0] > b[0] {
        false
    } else {
        lex_lt(a.skip(1), b.skip(1))
    }
}

/// The order is irreflexive: no sequence is below itself.
pub proof fn lemma_lex_irreflexive(a: Seq<u8>)
    ensures
        !lex_lt(a, a),
    decreases a.len(),
{
    if a.len() > 0 {
        lemma_lex_irreflexive(a.skip(1));
    }
}

/// The order is asymmetric: two sequences are never below each other.
pub proof fn lemma_lex_asymmetric(a: Seq<u8>, b: Seq<u8>)
    requires
        lex_lt(a, b),
    ensures
        !lex_lt(b, a),
    decreases a.len(),
{
    if a.len() > 0 && b.len() > 0 && a[0] == b[0] {
        lemma_lex_asymmetric(a.skip(1), b.skip(1));
    }
}

} // verus!
