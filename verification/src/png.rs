//! PNG files: the EXIF (`eXIf`) chunk.
use vstd::prelude::*;

use crate::bytes::{read_u32_be, spec_read_u32};
use crate::metadata::{MetaView, RawMetadata};
use crate::tiff::{parse_tiff_bytes, tiff_parse};

verus! {

/// Whether `s` starts with a TIFF header signature, "II*\0" or "MM\0*".
pub open spec fn tiff_signature(s: Seq<u8>) -> bool {
    &&& s.len() >= 4
    &&& {
        ||| s[0] == 0x49 && s[1] == 0x49 && s[2] == 0x2a && s[3] == 0
        ||| s[0] == 0x4d && s[1] == 0x4d && s[2] == 0 && s[3] == 0x2a
    }
}

/// Whether `s` starts with a TIFF header signature.
pub fn has_tiff_signature(s: &[u8]) -> (r: bool)
    ensures
        r == tiff_signature(s@),
{
    s.len() >= 4 && ((s[0] == 0x49 && s[1] == 0x49 && s[2] == 0x2a && s[3] == 0) || (s[0] == 0x4d
        && s[1] == 0x4d && s[2] == 0 && s[3] == 0x2a))
}

/// Whether the four bytes at `p` spell the chunk type `a b c e`.
pub open spec fn chunk_type_at(d: Seq<u8>, p: int, a: u8, b: u8, c: u8, e: u8) -> bool {
    d[p] == a && d[p + 1] == b && d[p + 2] == c && d[p + 3] == e
}

/// The payload range of the first `eXIf` chunk, scanning the chunks from `off`
/// (length, type, payload, CRC) until a chunk does not fit or `IEND`.
pub open spec fn png_exif_chunk(d: Seq<u8>, off: int) -> Option<(int, int)>
    decreases (if off < d.len() { d.len() - off } else { 0 }),
{
    if off < 0 || off + 12 > d.len() {
        None
    } else {
        let chunk_len = spec_read_u32(d, false, off).unwrap() as int;
        let payload_start = off + 8;
        let payload_end = payload_start + chunk_len;
        if payload_end > d.len() {
            None
        } else if chunk_type_at(d, off + 4, 0x65, 0x58, 0x49, 0x66) {
            Some((payload_start, payload_end))
        } else if chunk_type_at(d, off + 4, 0x49, 0x45, 0x4e, 0x44) {
            None
        } else {
            png_exif_chunk(d, payload_end + 4)
        }
    }
}

/// What the EXIF chunk of the PNG file `d` makes of `m`: its TIFF data is read
/// when it starts with a TIFF signature.
pub open spec fn png_exif_meta(m: MetaView, d: Seq<u8>) -> MetaView {
    match png_exif_chunk(d, 8) {
        Some((s, e)) => if tiff_signature(d.subrange(s, e)) {
            tiff_parse(m, d.subrange(s, e), false)
        } else {
            m
        },
        None => m,
    }
}

/// Whether `s` starts with the little-endian ("II*\0") or the big-endian
/// ("MM\0*") TIFF signature.
pub open spec fn starts_with_either_tiff_order(s: Seq<u8>) -> bool {
    ||| s.len() >= 4 && s[0] == 0x49 && s[1] == 0x49 && s[2] == 0x2a && s[3] == 0
    ||| s.len() >= 4 && s[0] == 0x4d && s[1] == 0x4d && s[2] == 0 && s[3] == 0x2a
}

/// The `eXIf` chunk's payload is read as TIFF exactly when it starts with a
/// TIFF signature of either byte order; otherwise the metadata is unchanged.
pub proof fn lemma_png_exif_payload_read(m: MetaView, d: Seq<u8>, s: int, e: int)
    requires
        png_exif_chunk(d, 8) == Some((s, e)),
    ensures
        png_exif_meta(m, d) == (if starts_with_either_tiff_order(d.subrange(s, e)) {
            tiff_parse(m, d.subrange(s, e), false)
        } else {
            m
        }),
{
}

/// A chunk whose type is `eXIf` and whose payload fits in the data is the
/// EXIF chunk: its payload is what is read.
pub proof fn lemma_png_exif_chunk_found(d: Seq<u8>, off: int, len: u32)
    requires
        0 <= off,
        off + 12 <= d.len(),
        spec_read_u32(d, false, off) == Some(len),
        off + 8 + len <= d.len(),
        d[off + 4] == 0x65 && d[off + 5] == 0x58 && d[off + 6] == 0x49 && d[off + 7] == 0x66,
    ensures
        png_exif_chunk(d, off) == Some((off + 8, off + 8 + len)),
{
}

/// A chunk of another type than `eXIf` or `IEND` that fits in the data is
/// passed over: the search goes on after its payload and 4-byte CRC.
pub proof fn lemma_png_other_chunk_skipped(d: Seq<u8>, off: int, len: u32)
    requires
        0 <= off,
        off + 12 <= d.len(),
        spec_read_u32(d, false, off) == Some(len),
        off + 8 + len <= d.len(),
        !(d[off + 4] == 0x65 && d[off + 5] == 0x58 && d[off + 6] == 0x49 && d[off + 7] == 0x66),
        !(d[off + 4] == 0x49 && d[off + 5] == 0x45 && d[off + 6] == 0x4e && d[off + 7] == 0x44),
    ensures
        png_exif_chunk(d, off) == png_exif_chunk(d, off + 8 + len + 4),
{
}

/// Scans PNG chunks for an `eXIf` chunk and parses the TIFF/EXIF data inside.
pub fn parse_png_exif(data: &[u8], meta: &mut RawMetadata)
    ensures
        final(meta)@ == png_exif_meta(old(meta)@, data@),
{
    let ghost d = data@;
    let len = data.len();
    let mut offset: usize = 8;
    while offset <= len && len - offset >= 12
        invariant
            d == data@,
            len == d.len(),
            png_exif_chunk(d, offset as int) == png_exif_chunk(d, 8),
            meta@ == old(meta)@,
        decreases len - offset,
    {
        let chunk_len = read_u32_be(data, offset).unwrap() as usize;
        let payload_start = offset + 8;
        if chunk_len > len - payload_start {
            return ;
        }
        let payload_end = payload_start + chunk_len;
        let t = offset + 4;
        if data[t] == 0x65 && data[t + 1] == 0x58 && data[t + 2] == 0x49 && data[t + 3] == 0x66 {
            let exif_data = &data[payload_start..payload_end];
            if has_tiff_signature(exif_data) {
                parse_tiff_bytes(exif_data, meta, false);
            }
            return ;
        }
        if data[t] == 0x49 && data[t + 1] == 0x45 && data[t + 2] == 0x4e && data[t + 3] == 0x44 {
            return ;
        }
        if len - payload_end < 4 {
            assert(png_exif_chunk(d, payload_end + 4) is None);
            return ;
        }
        offset = payload_end + 4;
    }
}

} // verus!
