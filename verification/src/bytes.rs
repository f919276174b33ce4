//! Little-endian integers and byte ranges.
use vstd::prelude::*;
use vstd::slice::*;

verus! {

/// The eight little-endian bytes of `x`.
#[verifier::opaque]
pub open spec fn le64(x: u64) -> Seq<u8> {
    le32((x % 0x1_0000_0000) as u32) + le32((x / 0x1_0000_0000) as u32)
}

/// The four little-endian bytes of `x`.
#[verifier::opaque]
pub open spec fn le32(x: u32) -> Seq<u8> {
    let q1 = x / 256;
    let q2 = q1 / 256;
    let q3 = q2 / 256;
    seq![(x % 256) as u8, (q1 % 256) as u8, (q2 % 256) as u8, q3 as u8]
}

/// The number that four bytes stand for, the least significant byte first.
pub open spec fn le_value(b: Seq<u8>) -> int {
    b[0] + 256 * (b[1] + 256 * (b[2] + 256 * b[3]))
}

/// The integer whose little-endian bytes stand at `at`.
#[verifier::opaque]
pub open spec fn u32_at(bytes: Seq<u8>, at: int) -> u32 {
    le_value(bytes.subrange(at, at + 4)) as u32
}

/// The integer whose little-endian bytes stand at `at`.
#[verifier::opaque]
pub open spec fn u64_at(bytes: Seq<u8>, at: int) -> u64 {
    (u32_at(bytes, at) + 0x1_0000_0000 * u32_at(bytes, at + 4)) as u64
}

/// Integers have as many bytes as their width.
pub proof fn le_lengths()
    ensures
        forall|x: u32| #[trigger] le32(x).len() == 4,
        forall|x: u64| #[trigger] le64(x).len() == 8,
{
    reveal(le32);
    reveal(le64);
}

/// An integer of four bytes is read back from where it was written.
pub proof fn u32_reads_back(bytes: Seq<u8>, at: int, x: u32)
    requires
        0 <= at,
        at + 4 <= bytes.len(),
        bytes.subrange(at, at + 4) == le32(x),
    ensures
        u32_at(bytes, at) == x,
{
    reveal(le32);
    reveal(u32_at);
}

/// An integer of eight bytes is read back from where it was written.
pub proof fn u64_reads_back(bytes: Seq<u8>, at: int, x: u64)
    requires
        0 <= at,
        at + 8 <= bytes.len(),
        bytes.subrange(at, at + 8) == le64(x),
    ensures
        u64_at(bytes, at) == x,
{
    reveal(le64);
    reveal(u64_at);
    le_lengths();
    let low = (x % 0x1_0000_0000) as u32;
    let high = (x / 0x1_0000_0000) as u32;
    assert(bytes.subrange(at, at + 4) =~= le64(x).subrange(0, 4));
    assert(le64(x).subrange(0, 4) =~= le32(low));
    assert(bytes.subrange(at + 4, at + 8) =~= le64(x).subrange(4, 8));
    assert(le64(x).subrange(4, 8) =~= le32(high));
    u32_reads_back(bytes, at, low);
    u32_reads_back(bytes, at + 4, high);
}

/// Four bytes are the bytes of the integer that they stand for.
pub proof fn u32_rewrites(bytes: Seq<u8>, at: int)
    requires
        0 <= at,
        at + 4 <= bytes.len(),
    ensures
        le32(u32_at(bytes, at)) == bytes.subrange(at, at + 4),
{
    reveal(le32);
    reveal(u32_at);
    assert(le32(u32_at(bytes, at)) =~= bytes.subrange(at, at + 4));
}

/// Eight bytes are the bytes of the integer that they stand for.
pub proof fn u64_rewrites(bytes: Seq<u8>, at: int)
    requires
        0 <= at,
        at + 8 <= bytes.len(),
    ensures
        le64(u64_at(bytes, at)) == bytes.subrange(at, at + 8),
{
    reveal(le64);
    reveal(u64_at);
    u32_rewrites(bytes, at);
    u32_rewrites(bytes, at + 4);
    assert(bytes.subrange(at, at + 8) =~= bytes.subrange(at, at + 4) + bytes.subrange(
        at + 4,
        at + 8,
    ));
}

/// Appends bytes to a buffer.
pub fn put_bytes(buffer: &mut Vec<u8>, bytes: &[u8])
    ensures
        final(buffer)@ == old(buffer)@ + bytes@,
{
    let ghost before = buffer@;
    let mut i: usize = 0;
    while i < bytes.len()
        invariant
            i <= bytes@.len(),
            buffer@ == before + bytes@.take(i as int),
        decreases bytes@.len() - i,
    {
        buffer.push(bytes[i]);
        assert(bytes@.take(i + 1) =~= bytes@.take(i as int).push(bytes@[i as int]));
        i += 1;
    }
    assert(bytes@.take(i as int) =~= bytes@);
}

/// Appends the little-endian bytes of an integer.
pub fn put_u32(buffer: &mut Vec<u8>, x: u32)
    ensures
        final(buffer)@ == old(buffer)@ + le32(x),
{
    proof {
        reveal(le32);
    }
    let q1: u32 = x / 256;
    let q2: u32 = q1 / 256;
    let q3: u32 = q2 / 256;
    buffer.push((x % 256) as u8);
    buffer.push((q1 % 256) as u8);
    buffer.push((q2 % 256) as u8);
    buffer.push(q3 as u8);
    assert(buffer@ =~= old(buffer)@ + le32(x));
}

/// Appends the little-endian bytes of an integer.
pub fn put_u64(buffer: &mut Vec<u8>, x: u64)
    ensures
        final(buffer)@ == old(buffer)@ + le64(x),
{
    proof {
        reveal(le64);
    }
    put_u32(buffer, (x % 0x1_0000_0000) as u32);
    put_u32(buffer, (x / 0x1_0000_0000) as u32);
    assert(buffer@ =~= old(buffer)@ + le64(x));
}

/// Reads an integer from its little-endian bytes.
pub fn read_u32(bytes: &[u8], at: usize) -> (r: u32)
    requires
        at + 4 <= bytes@.len(),
    ensures
        r == u32_at(bytes@, at as int),
{
    proof {
        reveal(u32_at);
    }
    let _length: usize = bytes.len();
    let high: u32 = bytes[at + 2] as u32 + 256 * bytes[at + 3] as u32;
    bytes[at] as u32 + 256 * (bytes[at + 1] as u32 + 256 * high)
}

/// Reads an integer from its little-endian bytes.
pub fn read_u64(bytes: &[u8], at: usize) -> (r: u64)
    requires
        at + 8 <= bytes@.len(),
    ensures
        r == u64_at(bytes@, at as int),
{
    proof {
        reveal(u64_at);
    }
    let _length: usize = bytes.len();
    read_u32(bytes, at) as u64 + 0x1_0000_0000 * read_u32(bytes, at + 4) as u64
}

/// A copy of the bytes from `from` up to `to`.
pub fn copy_range(bytes: &[u8], from: usize, to: usize) -> (r: Vec<u8>)
    requires
        from <= to <= bytes@.len(),
    ensures
        r@ == bytes@.subrange(from as int, to as int),
{
    let mut r: Vec<u8> = Vec::new();
    put_bytes(&mut r, slice_subrange(bytes, from, to));
    assert(r@ =~= bytes@.subrange(from as int, to as int));
    r
}

} // verus!
