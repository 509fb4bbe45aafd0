//! Big-endian integers and fixed-size byte arrays read from byte sequences.
use vstd::prelude::*;

verus! {

/// The four bytes of `x`, most significant first.
pub open spec fn be_u32_bytes(x: u32) -> Seq<u8> {
    seq![(x >> 24) as u8, ((x >> 16) & 0xff) as u8, ((x >> 8) & 0xff) as u8, (x & 0xff) as u8]
}

/// The number that four bytes spell, most significant first.
pub open spec fn be_u32_value(b: Seq<u8>) -> u32
    recommends
        b.len() == 4,
{
    ((b[0] as u32) << 24) | ((b[1] as u32) << 16) | ((b[2] as u32) << 8) | (b[3] as u32)
}

/// Reading back the four bytes of `x` gives `x`.
pub proof fn lemma_be_u32_round_trip(x: u32)
    ensures
        be_u32_value(be_u32_bytes(x)) == x,
        be_u32_bytes(x).len() == 4,
{
    let b = be_u32_bytes(x);
    let (b0, b1, b2, b3) = (b[0], b[1], b[2], b[3]);
    assert(b0 == (x >> 24) as u8 && b1 == ((x >> 16) & 0xff) as u8 && b2 == ((x >> 8) & 0xff) as u8
        && b3 == (x & 0xff) as u8);
    assert((((((x >> 24) as u8) as u32) << 24) | (((((x >> 16) & 0xff) as u8) as u32) << 16) | (((((
    x >> 8) & 0xff) as u8) as u32) << 8) | ((((x & 0xff) as u8) as u32))) == x) by (bit_vector);
}

/// Writing out the number that four bytes spell gives those bytes.
pub proof fn lemma_be_u32_bytes_of_value(b: Seq<u8>)
    requires
        b.len() == 4,
    ensures
        be_u32_bytes(be_u32_value(b)) == b,
{
    let (b0, b1, b2, b3) = (b[0], b[1], b[2], b[3]);
    let x = be_u32_value(b);
    assert(x == ((b0 as u32) << 24) | ((b1 as u32) << 16) | ((b2 as u32) << 8) | (b3 as u32));
    assert(((((b0 as u32) << 24) | ((b1 as u32) << 16) | ((b2 as u32) << 8) | (b3 as u32)) >> 24) as u8
        == b0) by (bit_vector);
    assert((((((b0 as u32) << 24) | ((b1 as u32) << 16) | ((b2 as u32) << 8) | (b3 as u32)) >> 16)
        & 0xff) as u8 == b1) by (bit_vector);
    assert((((((b0 as u32) << 24) | ((b1 as u32) << 16) | ((b2 as u32) << 8) | (b3 as u32)) >> 8)
        & 0xff) as u8 == b2) by (bit_vector);
    assert(((((b0 as u32) << 24) | ((b1 as u32) << 16) | ((b2 as u32) << 8) | (b3 as u32)) & 0xff) as u8
        == b3) by (bit_vector);
    assert(be_u32_bytes(x) =~= b);
}

/// Reads the big-endian `u32` at `start`.
pub fn read_be_u32(buf: &[u8], start: usize) -> (r: u32)
    requires
        start + 4 <= buf@.len(),
    ensures
        r == be_u32_value(buf@.subrange(start as int, start + 4)),
{
    let r = ((buf[start] as u32) << 24) | ((buf[start + 1] as u32) << 16) | ((buf[start + 2] as u32)
        << 8) | (buf[start + 3] as u32);
    r
}

/// Appends the four big-endian bytes of `x`.
pub fn push_be_u32(out: &mut Vec<u8>, x: u32)
    ensures
        final(out)@ == old(out)@ + be_u32_bytes(x),
{
    out.push((x >> 24) as u8);
    out.push(((x >> 16) & 0xff) as u8);
    out.push(((x >> 8) & 0xff) as u8);
    out.push((x & 0xff) as u8);
    assert(out@ =~= old(out)@ + be_u32_bytes(x));
}

/// Appends every byte of `src`.
pub fn push_all(out: &mut Vec<u8>, src: &[u8])
    ensures
        final(out)@ == old(out)@ + src@,
{
    let mut i: usize = 0;
    while i < src.len()
        invariant
            i <= src@.len(),
            out@ == old(out)@ + src@.subrange(0, i as int),
        decreases src@.len() - i,
    {
        out.push(src[i]);
        i += 1;
        assert(out@ =~= old(out)@ + src@.subrange(0, i as int));
    }
    assert(src@.subrange(0, i as int) =~= src@);
}

/// Copies the bytes `start .. end` of `src` into a new vector.
pub fn copy_range(src: &[u8], start: usize, end: usize) -> (r: Vec<u8>)
    requires
        start <= end <= src@.len(),
    ensures
        r@ == src@.subrange(start as int, end as int),
{
    let mut r: Vec<u8> = Vec::new();
    let mut i: usize = start;
    while i < end
        invariant
            start <= i <= end <= src@.len(),
            r@ == src@.subrange(start as int, i as int),
        decreases end - i,
    {
        r.push(src[i]);
        i += 1;
        assert(r@ =~= src@.subrange(start as int, i as int));
    }
    r
}

/// Copies `N` bytes starting at `start` into an array.
pub fn read_array<const N: usize>(src: &[u8], start: usize) -> (r: [u8; N])
    requires
        start + N <= src@.len(),
    ensures
        r@ == src@.subrange(start as int, start + N),
{
    let len = src.len();
    let mut r: [u8; N] = [0u8; N];
    let mut i: usize = 0;
    while i < N
        invariant
            i <= N,
            start + N <= src@.len(),
            len == src@.len(),
            r@.len() == N,
            forall|j: int| 0 <= j < i ==> r@[j] == src@[start + j],
        decreases N - i,
    {
        r[i] = src[start + i];
        i += 1;
    }
    assert(r@ =~= src@.subrange(start as int, start + N));
    r
}

} // verus!
