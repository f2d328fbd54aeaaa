//! Fixed-width integer reads from byte buffers, in either byte order.
use vstd::prelude::*;

verus! {

/// The value of two bytes, little-endian when `le`, else big-endian.
pub open spec fn u16_of(b0: u8, b1: u8, le: bool) -> u16 {
    if le {
        (b0 as int + 256 * b1 as int) as u16
    } else {
        (256 * b0 as int + b1 as int) as u16
    }
}

/// The value of four bytes, little-endian when `le`, else big-endian.
pub open spec fn u32_of(b0: u8, b1: u8, b2: u8, b3: u8, le: bool) -> u32 {
    if le {
        (b0 as int + 0x100 * b1 as int + 0x1_0000 * b2 as int + 0x100_0000 * b3 as int) as u32
    } else {
        (0x100_0000 * b0 as int + 0x1_0000 * b1 as int + 0x100 * b2 as int + b3 as int) as u32
    }
}

/// The 16-bit value at `off` in `data`, when two bytes are there.
pub open spec fn spec_read_u16(data: Seq<u8>, le: bool, off: int) -> Option<u16> {
    if off < 0 || off + 2 > data.len() {
        None
    } else {
        Some(u16_of(data[off], data[off + 1], le))
    }
}

/// The 32-bit value at `off` in `data`, when four bytes are there.
pub open spec fn spec_read_u32(data: Seq<u8>, le: bool, off: int) -> Option<u32> {
    if off < 0 || off + 4 > data.len() {
        None
    } else {
        Some(u32_of(data[off], data[off + 1], data[off + 2], data[off + 3], le))
    }
}

/// The big-endian 64-bit value at `off` in `data`, when eight bytes are there.
pub open spec fn spec_read_u64_be(data: Seq<u8>, off: int) -> Option<u64> {
    if off < 0 || off + 8 > data.len() {
        None
    } else {
        Some(
            (u32_of(data[off], data[off + 1], data[off + 2], data[off + 3], false) as int
                * 0x1_0000_0000 + u32_of(
                data[off + 4],
                data[off + 5],
                data[off + 6],
                data[off + 7],
                false,
            ) as int) as u64,
        )
    }
}

/// Whether `data` holds, at `off`, exactly the bytes of `pat`.
pub open spec fn bytes_at(data: Seq<u8>, off: int, pat: Seq<u8>) -> bool {
    0 <= off && off + pat.len() <= data.len() && data.subrange(off, off + pat.len()) == pat
}

/// Reads a 16-bit value at `off` in the given byte order.
pub fn read_u16_at(data: &[u8], le: bool, off: u64) -> (r: Option<u16>)
    ensures
        r == spec_read_u16(data@, le, off as int),
{
    let len = data.len() as u64;
    if off > len || len - off < 2 {
        return None;
    }
    let i = off as usize;
    let b0 = data[i] as u16;
    let b1 = data[i + 1] as u16;
    if le {
        Some(b0 + 256 * b1)
    } else {
        Some(256 * b0 + b1)
    }
}

/// Reads a 32-bit value at `off` in the given byte order.
pub fn read_u32_at(data: &[u8], le: bool, off: u64) -> (r: Option<u32>)
    ensures
        r == spec_read_u32(data@, le, off as int),
{
    let len = data.len() as u64;
    if off > len || len - off < 4 {
        return None;
    }
    let i = off as usize;
    let b0 = data[i] as u32;
    let b1 = data[i + 1] as u32;
    let b2 = data[i + 2] as u32;
    let b3 = data[i + 3] as u32;
    if le {
        Some(b0 + 0x100 * b1 + 0x1_0000 * b2 + 0x100_0000 * b3)
    } else {
        Some(0x100_0000 * b0 + 0x1_0000 * b1 + 0x100 * b2 + b3)
    }
}

/// Reads a big-endian 16-bit value at `offset`.
pub fn read_u16_be(data: &[u8], offset: usize) -> (r: Option<u16>)
    ensures
        r == spec_read_u16(data@, false, offset as int),
{
    read_u16_at(data, false, offset as u64)
}

/// Reads a big-endian 32-bit value at `offset`.
pub fn read_u32_be(data: &[u8], offset: usize) -> (r: Option<u32>)
    ensures
        r == spec_read_u32(data@, false, offset as int),
{
    read_u32_at(data, false, offset as u64)
}

/// Reads a big-endian 64-bit value at `offset`.
pub fn read_u64_be(data: &[u8], offset: usize) -> (r: Option<u64>)
    ensures
        r == spec_read_u64_be(data@, offset as int),
{
    let len = data.len();
    if offset > len || len - offset < 8 {
        return None;
    }
    let hi = read_u32_at(data, false, offset as u64).unwrap() as u64;
    let lo = read_u32_at(data, false, offset as u64 + 4).unwrap() as u64;
    Some(hi * 0x1_0000_0000 + lo)
}

/// Whether `data` holds, at `off`, exactly the bytes of `pat`.
pub fn bytes_match(data: &[u8], off: usize, pat: &[u8]) -> (r: bool)
    ensures
        r == bytes_at(data@, off as int, pat@),
{
    if off > data.len() || data.len() - off < pat.len() {
        return false;
    }
    let mut i: usize = 0;
    while i < pat.len()
        invariant
            0 <= i <= pat.len(),
            off + pat.len() <= data.len(),
            forall|j: int| 0 <= j < i ==> data@[off + j] == pat@[j],
        decreases pat.len() - i,
    {
        if data[off + i] != pat[i] {
            assert(data@.subrange(off as int, off + pat.len())[i as int] != pat@[i as int]);
            return false;
        }
        i += 1;
    }
    assert(data@.subrange(off as int, off + pat.len()) =~= pat@);
    true
}

} // verus!
