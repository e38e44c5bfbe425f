//! Little-endian encoding of integers.
use vstd::prelude::*;

verus! {

/// The eight bytes of `value`, least significant first.
pub open spec fn le_u64(value: u64) -> Seq<u8> {
    seq![
        (value & 0xff) as u8,
        ((value >> 8u64) & 0xff) as u8,
        ((value >> 16u64) & 0xff) as u8,
        ((value >> 24u64) & 0xff) as u8,
        ((value >> 32u64) & 0xff) as u8,
        ((value >> 40u64) & 0xff) as u8,
        ((value >> 48u64) & 0xff) as u8,
        ((value >> 56u64) & 0xff) as u8,
    ]
}

/// The four bytes of `value`, least significant first.
pub open spec fn le_u32(value: u32) -> Seq<u8> {
    seq![
        (value & 0xff) as u8,
        ((value >> 8u32) & 0xff) as u8,
        ((value >> 16u32) & 0xff) as u8,
        ((value >> 24u32) & 0xff) as u8,
    ]
}

/// Appends the eight bytes of `value`.
pub fn push_u64(out: &mut Vec<u8>, value: u64)
    ensures
        final(out)@ == old(out)@ + le_u64(value),
{
    out.push((value & 0xff) as u8);
    out.push(((value >> 8u64) & 0xff) as u8);
    out.push(((value >> 16u64) & 0xff) as u8);
    out.push(((value >> 24u64) & 0xff) as u8);
    out.push(((value >> 32u64) & 0xff) as u8);
    out.push(((value >> 40u64) & 0xff) as u8);
    out.push(((value >> 48u64) & 0xff) as u8);
    out.push(((value >> 56u64) & 0xff) as u8);
    assert(out@ =~= old(out)@ + le_u64(value));
}

/// Appends the four bytes of `value`.
pub fn push_u32(out: &mut Vec<u8>, value: u32)
    ensures
        final(out)@ == old(out)@ + le_u32(value),
{
    out.push((value & 0xff) as u8);
    out.push(((value >> 8u32) & 0xff) as u8);
    out.push(((value >> 16u32) & 0xff) as u8);
    out.push(((value >> 24u32) & 0xff) as u8);
    assert(out@ =~= old(out)@ + le_u32(value));
}

/// The number that the four bytes from `at` on stand for.
pub open spec fn u32_at(bytes: Seq<u8>, at: int) -> u32 {
    (bytes[at] + 0x100 * bytes[at + 1] + 0x1_0000 * bytes[at + 2] + 0x100_0000 * bytes[at
        + 3]) as u32
}

/// The number that the eight bytes from `at` on stand for.
pub open spec fn u64_at(bytes: Seq<u8>, at: int) -> u64 {
    (u32_at(bytes, at) + 0x1_0000_0000 * u32_at(bytes, at + 4)) as u64
}

/// Reads four bytes.
pub fn read_u32(bytes: &[u8], at: usize) -> (value: u32)
    requires
        at + 4 <= bytes@.len(),
    ensures
        value == u32_at(bytes@, at as int),
{
    let low: u32 = bytes[at] as u32 + 0x100 * bytes[at + 1] as u32;
    let high: u32 = bytes[at + 2] as u32 + 0x100 * bytes[at + 3] as u32;
    low + 0x1_0000 * high
}

/// Reads eight bytes.
pub fn read_u64(bytes: &[u8], at: usize) -> (value: u64)
    requires
        at + 8 <= bytes@.len(),
    ensures
        value == u64_at(bytes@, at as int),
{
    let count: usize = bytes.len();
    assert(at + 8 <= count);
    let low: u64 = read_u32(bytes, at) as u64;
    let high: u64 = read_u32(bytes, at + 4) as u64;
    low + 0x1_0000_0000 * high
}

/// Reading gives back the number that was written.
pub proof fn read_u32_gives_back(bytes: Seq<u8>, at: int, value: u32)
    requires
        0 <= at,
        at + 4 <= bytes.len(),
        bytes.subrange(at, at + 4) == le_u32(value),
    ensures
        u32_at(bytes, at) == value,
{
    let part = bytes.subrange(at, at + 4);
    assert(part[0] == bytes[at] && part[1] == bytes[at + 1] && part[2] == bytes[at + 2] && part[3]
        == bytes[at + 3]);
    assert((value & 0xff) as u8 == value & 0xff && ((value >> 8u32) & 0xff) as u8 == (value >> 8u32)
        & 0xff && ((value >> 16u32) & 0xff) as u8 == (value >> 16u32) & 0xff && ((value >> 24u32)
        & 0xff) as u8 == (value >> 24u32) & 0xff && (value & 0xff) + 0x100 * ((value >> 8u32) & 0xff)
        + 0x1_0000 * ((value >> 16u32) & 0xff) + 0x100_0000 * ((value >> 24u32) & 0xff) == value)
        by (bit_vector);
}

/// Reading gives back the number that was written.
pub proof fn read_u64_gives_back(bytes: Seq<u8>, at: int, value: u64)
    requires
        0 <= at,
        at + 8 <= bytes.len(),
        bytes.subrange(at, at + 8) == le_u64(value),
    ensures
        u64_at(bytes, at) == value,
{
    let part = bytes.subrange(at, at + 8);
    let low = (value & 0xffff_ffff) as u32;
    let high = (value >> 32u64) as u32;
    assert((value & 0xff) as u8 == (low & 0xff) as u8 && ((value >> 8u64) & 0xff) as u8 == ((low
        >> 8u32) & 0xff) as u8 && ((value >> 16u64) & 0xff) as u8 == ((low >> 16u32) & 0xff) as u8
        && ((value >> 24u64) & 0xff) as u8 == ((low >> 24u32) & 0xff) as u8 && ((value >> 32u64)
        & 0xff) as u8 == (high & 0xff) as u8 && ((value >> 40u64) & 0xff) as u8 == ((high >> 8u32)
        & 0xff) as u8 && ((value >> 48u64) & 0xff) as u8 == ((high >> 16u32) & 0xff) as u8 && ((value
        >> 56u64) & 0xff) as u8 == ((high >> 24u32) & 0xff) as u8 && low + 0x1_0000_0000 * high
        == value) by (bit_vector)
        requires
            low == (value & 0xffff_ffff) as u32,
            high == (value >> 32u64) as u32,
    ;
    assert(bytes.subrange(at, at + 4) =~= part.subrange(0, 4));
    assert(part.subrange(0, 4) =~= le_u32(low));
    assert(bytes.subrange(at + 4, at + 8) =~= part.subrange(4, 8));
    assert(part.subrange(4, 8) =~= le_u32(high));
    read_u32_gives_back(bytes, at, low);
    read_u32_gives_back(bytes, at + 4, high);
}

} // verus!
