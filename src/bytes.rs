//! Little-endian integer encodings used by every on-disk layout.
use vstd::prelude::*;

verus! {

/// The two bytes of `x`, least significant first.
pub open spec fn le_u16(x: u16) -> Seq<u8> {
    seq![x as u8, (x >> 8u16) as u8]
}

/// The four bytes of `x`, least significant first.
pub open spec fn le_u32(x: u32) -> Seq<u8> {
    seq![x as u8, (x >> 8u32) as u8, (x >> 16u32) as u8, (x >> 24u32) as u8]
}

/// The eight bytes of `x`, least significant first.
pub open spec fn le_u64(x: u64) -> Seq<u8> {
    seq![
        x as u8,
        (x >> 8u64) as u8,
        (x >> 16u64) as u8,
        (x >> 24u64) as u8,
        (x >> 32u64) as u8,
        (x >> 40u64) as u8,
        (x >> 48u64) as u8,
        (x >> 56u64) as u8,
    ]
}

/// The `u16` whose little-endian bytes start at `p` in `b`.
pub open spec fn u16_at(b: Seq<u8>, p: int) -> u16 {
    (b[p] as u16) | ((b[p + 1] as u16) << 8u16)
}

/// The `u32` whose little-endian bytes start at `p` in `b`.
pub open spec fn u32_at(b: Seq<u8>, p: int) -> u32 {
    (b[p] as u32) | ((b[p + 1] as u32) << 8u32) | ((b[p + 2] as u32) << 16u32) | ((b[p
        + 3] as u32) << 24u32)
}

/// The `u64` whose little-endian bytes start at `p` in `b`.
pub open spec fn u64_at(b: Seq<u8>, p: int) -> u64 {
    (b[p] as u64) | ((b[p + 1] as u64) << 8u64) | ((b[p + 2] as u64) << 16u64) | ((b[p
        + 3] as u64) << 24u64) | ((b[p + 4] as u64) << 32u64) | ((b[p + 5] as u64) << 40u64)
        | ((b[p + 6] as u64) << 48u64) | ((b[p + 7] as u64) << 56u64)
}

/// Reading back the bytes of a `u16` gives the `u16`.
pub proof fn lemma_u16_round_trip(x: u16)
    ensures
        u16_at(le_u16(x), 0) == x,
{
    let b = le_u16(x);
    let b0 = x as u8;
    let b1 = (x >> 8u16) as u8;
    assert(b[0] == b0 && b[1] == b1);
    assert(((b0 as u16) | ((b1 as u16) << 8u16)) == x) by (bit_vector)
        requires
            b0 == x as u8,
            b1 == (x >> 8u16) as u8,
    ;
}

/// Reading back the bytes of a `u32` gives the `u32`.
pub proof fn lemma_u32_round_trip(x: u32)
    ensures
        u32_at(le_u32(x), 0) == x,
{
    let b = le_u32(x);
    let b0 = x as u8;
    let b1 = (x >> 8u32) as u8;
    let b2 = (x >> 16u32) as u8;
    let b3 = (x >> 24u32) as u8;
    assert(b[0] == b0 && b[1] == b1 && b[2] == b2 && b[3] == b3);
    assert(((b0 as u32) | ((b1 as u32) << 8u32) | ((b2 as u32) << 16u32) | ((b3 as u32)
        << 24u32)) == x) by (bit_vector)
        requires
            b0 == x as u8,
            b1 == (x >> 8u32) as u8,
            b2 == (x >> 16u32) as u8,
            b3 == (x >> 24u32) as u8,
    ;
}

/// Reading back the bytes of a `u64` gives the `u64`.
pub proof fn lemma_u64_round_trip(x: u64)
    ensures
        u64_at(le_u64(x), 0) == x,
{
    let b = le_u64(x);
    let b0 = x as u8;
    let b1 = (x >> 8u64) as u8;
    let b2 = (x >> 16u64) as u8;
    let b3 = (x >> 24u64) as u8;
    let b4 = (x >> 32u64) as u8;
    let b5 = (x >> 40u64) as u8;
    let b6 = (x >> 48u64) as u8;
    let b7 = (x >> 56u64) as u8;
    assert(b[0] == b0 && b[1] == b1 && b[2] == b2 && b[3] == b3);
    assert(b[4] == b4 && b[5] == b5 && b[6] == b6 && b[7] == b7);
    assert(((b0 as u64) | ((b1 as u64) << 8u64) | ((b2 as u64) << 16u64) | ((b3 as u64)
        << 24u64) | ((b4 as u64) << 32u64) | ((b5 as u64) << 40u64) | ((b6 as u64) << 48u64)
        | ((b7 as u64) << 56u64)) == x) by (bit_vector)
        requires
            b0 == x as u8,
            b1 == (x >> 8u64) as u8,
            b2 == (x >> 16u64) as u8,
            b3 == (x >> 24u64) as u8,
            b4 == (x >> 32u64) as u8,
            b5 == (x >> 40u64) as u8,
            b6 == (x >> 48u64) as u8,
            b7 == (x >> 56u64) as u8,
    ;
}

/// A value read at `p` depends only on the bytes `p..p + n`: reading inside a
/// concatenation reads inside the part that holds those bytes.
pub proof fn lemma_u64_at_concat(a: Seq<u8>, b: Seq<u8>, p: int)
    requires
        0 <= p,
        p + 8 <= b.len(),
    ensures
        u64_at(a + b, a.len() + p) == u64_at(b, p),
{
    assert((a + b)[a.len() + p] == b[p]);
    assert((a + b)[a.len() + p + 1] == b[p + 1]);
    assert((a + b)[a.len() + p + 2] == b[p + 2]);
    assert((a + b)[a.len() + p + 3] == b[p + 3]);
    assert((a + b)[a.len() + p + 4] == b[p + 4]);
    assert((a + b)[a.len() + p + 5] == b[p + 5]);
    assert((a + b)[a.len() + p + 6] == b[p + 6]);
    assert((a + b)[a.len() + p + 7] == b[p + 7]);
}

/// Reading a `u64` at `p` ignores whatever follows position `p + 8`.
pub proof fn lemma_u64_at_prefix(a: Seq<u8>, b: Seq<u8>, p: int)
    requires
        0 <= p,
        p + 8 <= a.len(),
    ensures
        u64_at(a + b, p) == u64_at(a, p),
{
}

/// The same holds of a `u16` read inside a concatenation.
pub proof fn lemma_u16_at_concat(a: Seq<u8>, b: Seq<u8>, p: int)
    requires
        0 <= p,
        p + 2 <= b.len(),
    ensures
        u16_at(a + b, a.len() + p) == u16_at(b, p),
{
    assert((a + b)[a.len() + p] == b[p]);
    assert((a + b)[a.len() + p + 1] == b[p + 1]);
}

/// A `u16` read at `p` ignores whatever follows position `p + 2`.
pub proof fn lemma_u16_at_prefix(a: Seq<u8>, b: Seq<u8>, p: int)
    requires
        0 <= p,
        p + 2 <= a.len(),
    ensures
        u16_at(a + b, p) == u16_at(a, p),
{
}

/// A `u32` read at `p` ignores whatever follows position `p + 4`.
pub proof fn lemma_u32_at_prefix(a: Seq<u8>, b: Seq<u8>, p: int)
    requires
        0 <= p,
        p + 4 <= a.len(),
    ensures
        u32_at(a + b, p) == u32_at(a, p),
{
}

/// Appends the little-endian bytes of `x`.
pub fn push_u16(v: &mut Vec<u8>, x: u16)
    ensures
        final(v)@ == old(v)@ + le_u16(x),
{
    v.push(x as u8);
    v.push((x >> 8u16) as u8);
    assert(final(v)@ =~= old(v)@ + le_u16(x));
}

/// Appends the little-endian bytes of `x`.
pub fn push_u32(v: &mut Vec<u8>, x: u32)
    ensures
        final(v)@ == old(v)@ + le_u32(x),
{
    v.push(x as u8);
    v.push((x >> 8u32) as u8);
    v.push((x >> 16u32) as u8);
    v.push((x >> 24u32) as u8);
    assert(final(v)@ =~= old(v)@ + le_u32(x));
}

/// Appends the little-endian bytes of `x`.
pub fn push_u64(v: &mut Vec<u8>, x: u64)
    ensures
        final(v)@ == old(v)@ + le_u64(x),
{
    v.push(x as u8);
    v.push((x >> 8u64) as u8);
    v.push((x >> 16u64) as u8);
    v.push((x >> 24u64) as u8);
    v.push((x >> 32u64) as u8);
    v.push((x >> 40u64) as u8);
    v.push((x >> 48u64) as u8);
    v.push((x >> 56u64) as u8);
    assert(final(v)@ =~= old(v)@ + le_u64(x));
}

/// Reads the `u16` stored little-endian at `p`.
pub fn read_u16(b: &[u8], p: usize) -> (r: u16)
    requires
        p + 2 <= b@.len(),
    ensures
        r == u16_at(b@, p as int),
{
    (b[p] as u16) | ((b[p + 1] as u16) << 8u16)
}

/// Reads the `u32` stored little-endian at `p`.
pub fn read_u32(b: &[u8], p: usize) -> (r: u32)
    requires
        p + 4 <= b@.len(),
    ensures
        r == u32_at(b@, p as int),
{
    (b[p] as u32) | ((b[p + 1] as u32) << 8u32) | ((b[p + 2] as u32) << 16u32) | ((b[p
        + 3] as u32) << 24u32)
}

/// Reads the `u64` stored little-endian at `p`.
pub fn read_u64(b: &[u8], p: usize) -> (r: u64)
    requires
        p + 8 <= b@.len(),
    ensures
        r == u64_at(b@, p as int),
{
    (b[p] as u64) | ((b[p + 1] as u64) << 8u64) | ((b[p + 2] as u64) << 16u64) | ((b[p
        + 3] as u64) << 24u64) | ((b[p + 4] as u64) << 32u64) | ((b[p + 5] as u64) << 40u64)
        | ((b[p + 6] as u64) << 48u64) | ((b[p + 7] as u64) << 56u64)
}

/// Overwrites the two bytes at `p` with the little-endian bytes of `x`.
pub fn write_u16(v: &mut Vec<u8>, p: usize, x: u16)
    requires
        p + 2 <= old(v)@.len(),
    ensures
        final(v)@ == old(v)@.update(p as int, x as u8).update(p + 1, (x >> 8u16) as u8),
{
    let _len = v.len();
    let q = p + 1;
    v.set(p, x as u8);
    v.set(q, (x >> 8u16) as u8);
}

} // verus!
