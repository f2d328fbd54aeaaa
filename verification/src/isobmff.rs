//! ISO base media files (Canon CR3): the box tree, its Canon preview box and
//! its embedded TIFF metadata boxes.
use vstd::prelude::*;
use vstd::utf8::valid_utf8;

use crate::bytes::{
    bytes_at, bytes_match, read_u16_be, read_u32_be, read_u64_be, spec_read_u16, spec_read_u32,
    spec_read_u64_be,
};
use crate::metadata::{MetaView, RawMetadata};
use crate::png::{has_tiff_signature, tiff_signature};
use crate::text::is_utf8;
use crate::tiff::{lemma_tiff_parse_keeps_known, parse_tiff_bytes, tiff_parse};

verus! {

/// Whether the four bytes at `p` spell the box type `a b c e`.
pub open spec fn fourcc_at(d: Seq<u8>, p: int, a: u8, b: u8, c: u8, e: u8) -> bool {
    d[p] == a && d[p + 1] == b && d[p + 2] == c && d[p + 3] == e
}

/// Whether the box type at `p` is one whose payload is a list of boxes:
/// `moov`, `trak`, `mdia`, `minf` or `stbl`.
pub open spec fn is_container_type(d: Seq<u8>, p: int) -> bool {
    ||| fourcc_at(d, p, 0x6d, 0x6f, 0x6f, 0x76)
    ||| fourcc_at(d, p, 0x74, 0x72, 0x61, 0x6b)
    ||| fourcc_at(d, p, 0x6d, 0x64, 0x69, 0x61)
    ||| fourcc_at(d, p, 0x6d, 0x69, 0x6e, 0x66)
    ||| fourcc_at(d, p, 0x73, 0x74, 0x62, 0x6c)
}

/// Whether the box type at `p` is Canon's metadata box `CMT1` or `CMT2`.
pub open spec fn is_cmt_type(d: Seq<u8>, p: int) -> bool {
    fourcc_at(d, p, 0x43, 0x4d, 0x54, 0x31) || fourcc_at(d, p, 0x43, 0x4d, 0x54, 0x32)
}

/// The UUID of Canon's preview box.
pub open spec fn canon_preview_uuid() -> Seq<u8> {
    seq![
        0xeau8,
        0xf4,
        0x2b,
        0x5e,
        0x1c,
        0x98,
        0x4b,
        0x88,
        0xb9,
        0xfb,
        0xb7,
        0xdc,
        0x40,
        0x6e,
        0x4d,
        0x16,
    ]
}

/// What a `uuid` box with payload `ps..box_end` makes of `m`: Canon's preview
/// box gives a JPEG preview (32 bytes after its `PRVW` header start) with its
/// size and dimensions, taken when larger than the preview already known.
/// `None` where a fixed part of the box lies beyond the data: the 16-byte
/// UUID, or the `PRVW` tag after a readable size.
pub open spec fn uuid_box_meta(m: MetaView, d: Seq<u8>, ps: int, box_end: int) -> Option<MetaView> {
    if ps + 16 <= box_end {
        if ps + 16 > d.len() {
            None
        } else if bytes_at(d, ps, canon_preview_uuid()) {
            let p = ps + 16;
            if p + 32 <= box_end {
                match spec_read_u32(d, false, p + 8) {
                    Some(jpeg_size) => if p + 16 > d.len() {
                        None
                    } else if fourcc_at(d, p + 12, 0x50, 0x52, 0x56, 0x57) && jpeg_size
                        > m.preview_length {
                        Some(
                            MetaView {
                                preview_offset: (p + 32) as u32,
                                preview_length: jpeg_size,
                                width: match spec_read_u16(d, false, p + 22) {
                                    Some(w) => Some(w as u32),
                                    None => None,
                                },
                                height: match spec_read_u16(d, false, p + 24) {
                                    Some(h) => Some(h as u32),
                                    None => None,
                                },
                                ..m
                            },
                        )
                    } else {
                        Some(m)
                    },
                    None => Some(m),
                }
            } else {
                Some(m)
            }
        } else {
            Some(m)
        }
    } else {
        Some(m)
    }
}

/// What the size field of the box at `off` (before `end`) gives as the box's
/// size and header length. A size of 1 means a 64-bit size after the type,
/// read as 0 where it lies beyond the data.
pub open spec fn box_extent(d: Seq<u8>, off: int, end: int) -> (int, int) {
    let box_size = spec_read_u32(d, false, off).unwrap() as int;
    if box_size == 1 && off + 16 <= end {
        (
            match spec_read_u64_be(d, off + 8) {
                Some(v) => v as int,
                None => 0,
            },
            16,
        )
    } else {
        (box_size, 8)
    }
}

/// What the boxes from `off` to `end` make of `m`. A box starts with a
/// big-endian 32-bit size and a 4-byte type; the walk stops where the size
/// cannot be read, at a type that is not UTF-8, at a size of 0 or at a box
/// that does not fit before `end`. `None` where a box read slices beyond the
/// data: a type cut off by the end of the data, a preview box as in
/// `uuid_box_meta`, or a `CMT1`/`CMT2` box that ends beyond the data.
pub open spec fn isobmff_boxes(m: MetaView, d: Seq<u8>, off: int, end: int) -> Option<MetaView>
    decreases (if off < end { end - off } else { 0 }),
{
    if off < 0 || off + 8 > end || off + 4 > d.len() {
        Some(m)
    } else if off + 8 > d.len() {
        None
    } else if !valid_utf8(d.subrange(off + 4, off + 8)) {
        Some(m)
    } else {
        let (real_size, header) = box_extent(d, off, end);
        if real_size == 0 || off + real_size > end {
            Some(m)
        } else {
            let box_end = off + real_size;
            let ps = off + header;
            let m1 = if is_container_type(d, off + 4) {
                isobmff_boxes(m, d, ps, box_end)
            } else if fourcc_at(d, off + 4, 0x75, 0x75, 0x69, 0x64) {
                uuid_box_meta(m, d, ps, box_end)
            } else if is_cmt_type(d, off + 4) && ps < box_end {
                if box_end > d.len() {
                    None
                } else if tiff_signature(d.subrange(ps, box_end)) {
                    Some(tiff_parse(m, d.subrange(ps, box_end), false))
                } else {
                    Some(m)
                }
            } else {
                Some(m)
            };
            match m1 {
                Some(m1) => isobmff_boxes(m1, d, box_end, end),
                None => None,
            }
        }
    }
}

/// Reads a Canon preview `uuid` box with payload `ps..box_end`.
fn read_uuid_box(data: &[u8], ps: usize, box_end: usize, meta: &mut RawMetadata)
    requires
        uuid_box_meta(old(meta)@, data@, ps as int, box_end as int) is Some,
    ensures
        Some(final(meta)@) == uuid_box_meta(old(meta)@, data@, ps as int, box_end as int),
{
    let expected_uuid: [u8; 16] = [
        0xea,
        0xf4,
        0x2b,
        0x5e,
        0x1c,
        0x98,
        0x4b,
        0x88,
        0xb9,
        0xfb,
        0xb7,
        0xdc,
        0x40,
        0x6e,
        0x4d,
        0x16,
    ];
    assert(expected_uuid@ =~= canon_preview_uuid());
    if ps > box_end || box_end - ps < 16 || !bytes_match(data, ps, expected_uuid.as_slice()) {
        return ;
    }
    let p = ps + 16;
    if box_end - p < 32 {
        return ;
    }
    if let Some(jpeg_size) = read_u32_be(data, p + 8) {
        if data[p + 12] == 0x50 && data[p + 13] == 0x52 && data[p + 14] == 0x56 && data[p + 15]
            == 0x57 {
            if jpeg_size > meta.preview_length {
                meta.preview_offset = (p + 32) as u32;
                meta.preview_length = jpeg_size;
                meta.width =
                match read_u16_be(data, p + 22) {
                    Some(w) => Some(w as u32),
                    None => None,
                };
                meta.height =
                match read_u16_be(data, p + 24) {
                    Some(h) => Some(h as u32),
                    None => None,
                };
            }
        }
    }
}

/// Parses the ISOBMFF boxes between `start` and `end` (Canon CR3), descending
/// into container boxes. `end` may lie beyond the data: the walk stops where a
/// size cannot be read; the inputs on which a box read would slice beyond the
/// data are left out.
pub fn parse_isobmff(data: &[u8], start: usize, end: usize, meta: &mut RawMetadata)
    requires
        isobmff_boxes(old(meta)@, data@, start as int, end as int) is Some,
    ensures
        Some(final(meta)@) == isobmff_boxes(old(meta)@, data@, start as int, end as int),
    decreases (if start < end { end - start } else { 0 }),
{
    let ghost d = data@;
    let ghost m0 = meta@;
    let mut offset = start;
    while offset <= end && end - offset >= 8
        invariant
            d == data@,
            start <= offset,
            isobmff_boxes(meta@, d, offset as int, end as int) == isobmff_boxes(
                m0,
                d,
                start as int,
                end as int,
            ),
            isobmff_boxes(m0, d, start as int, end as int) is Some,
        ensures
            Some(meta@) == isobmff_boxes(m0, d, start as int, end as int),
        decreases end - offset,
    {
        let box_size = match read_u32_be(data, offset) {
            Some(s) => s,
            None => break,
        };
        assert(offset + 8 <= data.len());
        if !is_utf8(&data[offset + 4..offset + 8]) {
            break;
        }
        let large = box_size == 1 && end - offset >= 16;
        let real_size: u64 = if large {
            match read_u64_be(data, offset + 8) {
                Some(v) => v,
                None => 0,
            }
        } else {
            box_size as u64
        };
        let header_size: usize = if large {
            16
        } else {
            8
        };
        assert((real_size as int, header_size as int) == box_extent(d, offset as int, end as int));
        if real_size == 0 || real_size > (end - offset) as u64 {
            break;
        }
        let box_end = offset + real_size as usize;
        let payload_start = offset + header_size;
        let t = offset + 4;
        if (data[t] == 0x6d && data[t + 1] == 0x6f && data[t + 2] == 0x6f && data[t + 3] == 0x76)
            || (data[t] == 0x74 && data[t + 1] == 0x72 && data[t + 2] == 0x61 && data[t + 3]
            == 0x6b) || (data[t] == 0x6d && data[t + 1] == 0x64 && data[t + 2] == 0x69 && data[t
            + 3] == 0x61) || (data[t] == 0x6d && data[t + 1] == 0x69 && data[t + 2] == 0x6e
            && data[t + 3] == 0x66) || (data[t] == 0x73 && data[t + 1] == 0x74 && data[t + 2]
            == 0x62 && data[t + 3] == 0x6c) {
            parse_isobmff(data, payload_start, box_end, meta);
        } else if data[t] == 0x75 && data[t + 1] == 0x75 && data[t + 2] == 0x69 && data[t + 3]
            == 0x64 {
            read_uuid_box(data, payload_start, box_end, meta);
        } else if data[t] == 0x43 && data[t + 1] == 0x4d && data[t + 2] == 0x54 && (data[t + 3]
            == 0x31 || data[t + 3] == 0x32) {
            if payload_start < box_end {
                let payload = &data[payload_start..box_end];
                if has_tiff_signature(payload) {
                    parse_tiff_bytes(payload, meta, false);
                }
            }
        }
        offset = box_end;
    }
}

/// Where the boxes lie within the data, reading them never slices beyond it.
pub proof fn lemma_isobmff_within_data(m: MetaView, d: Seq<u8>, off: int, end: int)
    requires
        end <= d.len(),
    ensures
        isobmff_boxes(m, d, off, end) is Some,
    decreases (if off < end { end - off } else { 0 }),
{
    if !(off < 0 || off + 8 > end || off + 4 > d.len()) && valid_utf8(d.subrange(off + 4, off + 8)) {
        let (real_size, header) = box_extent(d, off, end);
        if !(real_size == 0 || off + real_size > end) {
            let box_end = off + real_size;
            let ps = off + header;
            if is_container_type(d, off + 4) {
                lemma_isobmff_within_data(m, d, ps, box_end);
                lemma_isobmff_within_data(isobmff_boxes(m, d, ps, box_end).unwrap(), d, box_end, end);
            } else if fourcc_at(d, off + 4, 0x75, 0x75, 0x69, 0x64) {
                lemma_isobmff_within_data(uuid_box_meta(m, d, ps, box_end).unwrap(), d, box_end, end);
            } else if is_cmt_type(d, off + 4) && ps < box_end {
                if tiff_signature(d.subrange(ps, box_end)) {
                    lemma_isobmff_within_data(tiff_parse(m, d.subrange(ps, box_end), false), d, box_end, end);
                } else {
                    lemma_isobmff_within_data(m, d, box_end, end);
                }
            } else {
                lemma_isobmff_within_data(m, d, box_end, end);
            }
        }
    }
}

/// Four ASCII bytes are well-formed UTF-8.
proof fn lemma_ascii_type_is_utf8(t: Seq<u8>)
    requires
        t.len() == 4,
        forall|i: int| 0 <= i < 4 ==> #[trigger] t[i] < 0x80,
    ensures
        valid_utf8(t),
{
    reveal_with_fuel(valid_utf8, 5);
    assert(t.subrange(1, 4) =~= t.drop_first());
    assert(t.subrange(1, 4).subrange(1, 3) =~= t.subrange(2, 4));
    assert(t.subrange(2, 4).subrange(1, 2) =~= t.subrange(3, 4));
    assert(t.subrange(3, 4).subrange(1, 1) =~= Seq::<u8>::empty());
}

/// A box of the file: a big-endian size other than 1 at `off`, at least its
/// 8-byte header, ending at or before `end`, which lies within the data.
pub open spec fn plain_box_at(d: Seq<u8>, off: int, end: int, size: u32) -> bool {
    &&& 0 <= off
    &&& end <= d.len()
    &&& spec_read_u32(d, false, off) == Some(size)
    &&& size != 1
    &&& 8 <= size
    &&& off + size <= end
}

/// Canon's `CMT1` and `CMT2` boxes hold TIFF metadata: a box of either type
/// whose payload starts with a TIFF signature ("II*\0" or "MM\0*") is read
/// as TIFF into the metadata, and the walk goes on after the box.
pub proof fn lemma_cmt_box_read_as_tiff(m: MetaView, d: Seq<u8>, off: int, end: int, size: u32)
    requires
        plain_box_at(d, off, end, size),
        size >= 12,
        d[off + 4] == 0x43 && d[off + 5] == 0x4d && d[off + 6] == 0x54,
        d[off + 7] == 0x31 || d[off + 7] == 0x32,
        (d[off + 8] == 0x49 && d[off + 9] == 0x49 && d[off + 10] == 0x2a && d[off + 11] == 0) || (
        d[off + 8] == 0x4d && d[off + 9] == 0x4d && d[off + 10] == 0 && d[off + 11] == 0x2a),
    ensures
        isobmff_boxes(m, d, off, end) == isobmff_boxes(
            tiff_parse(m, d.subrange(off + 8, off + size), false),
            d,
            off + size,
            end,
        ),
{
    lemma_ascii_type_is_utf8(d.subrange(off + 4, off + 8));
    let payload = d.subrange(off + 8, off + size);
    assert(payload[0] == d[off + 8] && payload[1] == d[off + 9] && payload[2] == d[off + 10]
        && payload[3] == d[off + 11]);
    assert(tiff_signature(payload));
    assert(box_extent(d, off, end) == (size as int, 8int));
}

/// The container boxes `moov`, `trak`, `mdia`, `minf` and `stbl` are walked
/// into: their payload is read as a list of boxes, then the walk goes on
/// after the box.
pub proof fn lemma_container_box_walked_into(m: MetaView, d: Seq<u8>, off: int, end: int, size: u32)
    requires
        plain_box_at(d, off, end, size),
        ({
            let t = d.subrange(off + 4, off + 8);
            ||| t == seq![0x6du8, 0x6f, 0x6f, 0x76]
            ||| t == seq![0x74u8, 0x72, 0x61, 0x6b]
            ||| t == seq![0x6du8, 0x64, 0x69, 0x61]
            ||| t == seq![0x6du8, 0x69, 0x6e, 0x66]
            ||| t == seq![0x73u8, 0x74, 0x62, 0x6c]
        }),
    ensures
        isobmff_boxes(m, d, off + 8, off + size) is Some,
        isobmff_boxes(m, d, off, end) == isobmff_boxes(
            isobmff_boxes(m, d, off + 8, off + size).unwrap(),
            d,
            off + size,
            end,
        ),
{
    let t = d.subrange(off + 4, off + 8);
    assert(t[0] == d[off + 4] && t[1] == d[off + 5] && t[2] == d[off + 6] && t[3] == d[off + 7]);
    lemma_ascii_type_is_utf8(t);
    assert(box_extent(d, off, end) == (size as int, 8int));
    assert(is_container_type(d, off + 4));
    lemma_isobmff_within_data(m, d, off + 8, off + size);
}

/// Canon's preview box: a `uuid` box whose payload starts with Canon's
/// preview UUID, followed by a 32-byte `PRVW` header, gives the JPEG preview
/// right after that header, with the size stored at 8 and the width and
/// height at 22 and 24 of the header (big-endian), when the size is larger
/// than the preview known; the walk goes on after the box.
pub proof fn lemma_canon_preview_box(m: MetaView, d: Seq<u8>, off: int, end: int, size: u32, js: u32)
    requires
        plain_box_at(d, off, end, size),
        d.subrange(off + 4, off + 8) == seq![0x75u8, 0x75, 0x69, 0x64],
        off + 8 + 16 + 32 <= off + size,
        d.subrange(off + 8, off + 24) == seq![
            0xeau8, 0xf4, 0x2b, 0x5e, 0x1c, 0x98, 0x4b, 0x88, 0xb9, 0xfb, 0xb7, 0xdc, 0x40, 0x6e, 0x4d, 0x16,
        ],
        d.subrange(off + 36, off + 40) == seq![0x50u8, 0x52, 0x56, 0x57],
        spec_read_u32(d, false, off + 32) == Some(js),
    ensures
        js > m.preview_length ==> isobmff_boxes(m, d, off, end) == isobmff_boxes(
            MetaView {
                preview_offset: (off + 56) as u32,
                preview_length: js,
                width: Some(spec_read_u16(d, false, off + 46).unwrap() as u32),
                height: Some(spec_read_u16(d, false, off + 48).unwrap() as u32),
                ..m
            },
            d,
            off + size,
            end,
        ),
        js <= m.preview_length ==> isobmff_boxes(m, d, off, end) == isobmff_boxes(m, d, off + size, end),
{
    let t = d.subrange(off + 4, off + 8);
    assert(t[0] == d[off + 4] && t[1] == d[off + 5] && t[2] == d[off + 6] && t[3] == d[off + 7]);
    lemma_ascii_type_is_utf8(t);
    assert(box_extent(d, off, end) == (size as int, 8int));
    assert(bytes_at(d, off + 8, canon_preview_uuid()));
    let q = d.subrange(off + 36, off + 40);
    assert(q[0] == d[off + 36] && q[1] == d[off + 37] && q[2] == d[off + 38] && q[3] == d[off + 39]);
    assert(fourcc_at(d, off + 36, 0x50, 0x52, 0x56, 0x57));
}

/// Reading the boxes of an ISOBMFF file never shortens the preview: a preview
/// box is taken only when longer than the preview already known, and the
/// embedded TIFF metadata leaves the preview alone. The file's name and path
/// are kept.
pub proof fn lemma_isobmff_preview_grows(m: MetaView, d: Seq<u8>, off: int, end: int)
    ensures
        isobmff_boxes(m, d, off, end) matches Some(m2) ==> {
            &&& m2.preview_length >= m.preview_length
            &&& m2.file_path == m.file_path
            &&& m2.file_name == m.file_name
        },
    decreases (if off < end { end - off } else { 0 }),
{
    if !(off < 0 || off + 8 > end || off + 8 > d.len()) && valid_utf8(d.subrange(off + 4, off + 8)) {
        let (real_size, header) = box_extent(d, off, end);
        if !(real_size == 0 || off + real_size > end) {
            let box_end = off + real_size;
            let ps = off + header;
            if is_container_type(d, off + 4) {
                lemma_isobmff_preview_grows(m, d, ps, box_end);
                if let Some(m1) = isobmff_boxes(m, d, ps, box_end) {
                    lemma_isobmff_preview_grows(m1, d, box_end, end);
                }
            } else if fourcc_at(d, off + 4, 0x75, 0x75, 0x69, 0x64) {
                if let Some(m1) = uuid_box_meta(m, d, ps, box_end) {
                    lemma_isobmff_preview_grows(m1, d, box_end, end);
                }
            } else if is_cmt_type(d, off + 4) && ps < box_end {
                if box_end <= d.len() {
                    if tiff_signature(d.subrange(ps, box_end)) {
                        lemma_tiff_parse_keeps_known(m, d.subrange(ps, box_end), false);
                        lemma_isobmff_preview_grows(tiff_parse(m, d.subrange(ps, box_end), false), d, box_end, end);
                    } else {
                        lemma_isobmff_preview_grows(m, d, box_end, end);
                    }
                }
            } else {
                lemma_isobmff_preview_grows(m, d, box_end, end);
            }
        }
    }
}

} // verus!
