//! JPEG streams: the EXIF (APP1) segment of a JPEG, and the search for the
//! largest JPEG embedded in a file.
use vstd::prelude::*;

use crate::metadata::{MetaView, RawMetadata};
use crate::tiff::{keeps_known, lemma_tiff_parse_keeps_known, parse_tiff_bytes, tiff_parse};

verus! {

/// Where a scan for the EXIF segment of a JPEG stream ends.
#[derive(Debug, Clone, Copy, PartialEq, Eq)]
pub enum ExifSearch {
    /// The TIFF data of the EXIF segment lies in `start..end`.
    Found(usize, usize),
    /// The stream holds no EXIF segment before its end marker or its end.
    Absent,
    /// An APP1 segment declares a length below 2, so that its payload would
    /// end before it begins.
    Truncated,
}

/// Whether the six bytes at `p` are the EXIF identifier `"Exif\0\0"`.
pub open spec fn exif_id_at(d: Seq<u8>, p: int) -> bool {
    &&& 0 <= p
    &&& p + 6 <= d.len()
    &&& d[p] == 0x45
    &&& d[p + 1] == 0x78
    &&& d[p + 2] == 0x69
    &&& d[p + 3] == 0x66
    &&& d[p + 4] == 0
    &&& d[p + 5] == 0
}

/// The marker segments of a JPEG stream from `off` on: bytes other than 0xFF,
/// and fill or stuffed 0xFF pairs, are skipped; the end-of-image marker ends the
/// scan; any other marker is followed by a big-endian length that counts itself.
/// The first APP1 segment whose payload starts with `"Exif\0\0"` gives the
/// TIFF data after that identifier.
pub open spec fn exif_scan(d: Seq<u8>, off: int) -> ExifSearch
    decreases d.len() - off,
{
    if off < 0 || off + 4 > d.len() {
        ExifSearch::Absent
    } else if d[off] != 0xff {
        exif_scan(d, off + 1)
    } else {
        let marker = d[off + 1];
        if marker == 0 || marker == 0xff {
            exif_scan(d, off + 1)
        } else if marker == 0xd9 {
            ExifSearch::Absent
        } else {
            let length = 256 * d[off + 2] + d[off + 3];
            let end = off + 2 + length;
            if end > d.len() {
                ExifSearch::Absent
            } else if marker == 0xe1 && length < 2 {
                ExifSearch::Truncated
            } else if marker == 0xe1 && length - 2 >= 6 && exif_id_at(d, off + 4) {
                ExifSearch::Found((off + 10) as usize, end as usize)
            } else {
                exif_scan(d, end)
            }
        }
    }
}

/// The EXIF search of a JPEG stream: none unless it starts with the SOI marker.
pub open spec fn jpeg_exif(d: Seq<u8>) -> ExifSearch {
    if d.len() < 4 || d[0] != 0xff || d[1] != 0xd8 {
        ExifSearch::Absent
    } else {
        exif_scan(d, 2)
    }
}

/// Finds the TIFF data of the EXIF segment of the JPEG stream `jpeg_data`.
pub fn find_exif_segment(jpeg_data: &[u8]) -> (r: ExifSearch)
    ensures
        r == jpeg_exif(jpeg_data@),
        r matches ExifSearch::Found(s, e) ==> s <= e <= jpeg_data@.len(),
{
    let ghost d = jpeg_data@;
    let len = jpeg_data.len();
    if len < 4 {
        return ExifSearch::Absent;
    }
    if jpeg_data[0] != 0xff || jpeg_data[1] != 0xd8 {
        return ExifSearch::Absent;
    }
    let mut offset: usize = 2;
    while offset <= len && len - offset >= 4
        invariant
            d == jpeg_data@,
            len == d.len(),
            2 <= offset,
            exif_scan(d, offset as int) == jpeg_exif(d),
        decreases len - offset,
    {
        if jpeg_data[offset] != 0xff {
            offset += 1;
            continue;
        }
        let marker = jpeg_data[offset + 1];
        if marker == 0 || marker == 0xff {
            offset += 1;
            continue;
        }
        if marker == 0xd9 {
            return ExifSearch::Absent;
        }
        let length = 256 * (jpeg_data[offset + 2] as usize) + jpeg_data[offset + 3] as usize;
        if length > len - offset - 2 {
            return ExifSearch::Absent;
        }
        let marker_end = offset + 2 + length;
        if marker == 0xe1 {
            if length < 2 {
                return ExifSearch::Truncated;
            }
            let p = offset + 4;
            if length - 2 >= 6 && jpeg_data[p] == 0x45 && jpeg_data[p + 1] == 0x78 && jpeg_data[p
                + 2] == 0x69 && jpeg_data[p + 3] == 0x66 && jpeg_data[p + 4] == 0 && jpeg_data[p
                + 5] == 0 {
                return ExifSearch::Found(offset + 10, marker_end);
            }
        }
        offset = marker_end;
    }
    ExifSearch::Absent
}

/// The TIFF data of the EXIF segment of a JPEG stream, when it has one.
pub open spec fn exif_tiff(d: Seq<u8>) -> Option<Seq<u8>> {
    match jpeg_exif(d) {
        ExifSearch::Found(s, e) => Some(d.subrange(s as int, e as int)),
        _ => None,
    }
}

/// Scans JPEG bytes for the standard APP1 EXIF segment and returns the TIFF data
/// it holds. Streams in which an APP1 segment declares a length below 2 are
/// left out: the segment's payload would end before it begins.
pub fn extract_tiff_from_jpeg(jpeg_data: &[u8]) -> (r: Option<&[u8]>)
    requires
        jpeg_exif(jpeg_data@) != ExifSearch::Truncated,
    ensures
        match r {
            Some(t) => exif_tiff(jpeg_data@) == Some(t@),
            None => exif_tiff(jpeg_data@) is None,
        },
{
    match find_exif_segment(jpeg_data) {
        ExifSearch::Found(s, e) => Some(&jpeg_data[s..e]),
        _ => None,
    }
}

/// What reading the EXIF of the JPEG stored at `offset`, `length` bytes long, in
/// `d` makes of `m`: nothing when the length is 0 or the stream does not fit in
/// `d`; `None` when an APP1 segment of the stream is truncated.
pub open spec fn embedded_jpeg_meta(m: MetaView, d: Seq<u8>, offset: u32, length: u32) -> Option<MetaView> {
    if length == 0 || offset as int + length as int > d.len() {
        Some(m)
    } else {
        let jpeg = d.subrange(offset as int, offset as int + length as int);
        match jpeg_exif(jpeg) {
            ExifSearch::Truncated => None,
            ExifSearch::Found(s, e) => Some(tiff_parse(m, jpeg.subrange(s as int, e as int), false)),
            ExifSearch::Absent => Some(m),
        }
    }
}

/// Reads the EXIF of the embedded JPEG at `preview_offset` into `meta`; returns
/// false, leaving `meta` as it was, when an APP1 segment of that JPEG is truncated.
pub fn read_embedded_jpeg_meta(
    file_data: &[u8],
    preview_offset: u32,
    preview_length: u32,
    meta: &mut RawMetadata,
) -> (ok: bool)
    ensures
        ok == (embedded_jpeg_meta(old(meta)@, file_data@, preview_offset, preview_length) is Some),
        ok ==> Some(final(meta)@) == embedded_jpeg_meta(
            old(meta)@,
            file_data@,
            preview_offset,
            preview_length,
        ),
        !ok ==> final(meta)@ == old(meta)@,
{
    if preview_length == 0 {
        return true;
    }
    let start = preview_offset as u64;
    let end = start + preview_length as u64;
    if end <= file_data.len() as u64 {
        let jpeg_bytes = &file_data[start as usize..end as usize];
        match find_exif_segment(jpeg_bytes) {
            ExifSearch::Found(s, e) => {
                parse_tiff_bytes(&jpeg_bytes[s..e], meta, false);
                true
            },
            ExifSearch::Absent => true,
            ExifSearch::Truncated => false,
        }
    } else {
        true
    }
}

/// Extracts metadata from the embedded JPEG preview at `preview_offset`,
/// `preview_length` bytes long, to fill in tags still missing in `meta`.
pub fn extract_metadata_from_embedded_jpeg(
    file_data: &[u8],
    preview_offset: u32,
    preview_length: u32,
    meta: &mut RawMetadata,
)
    requires
        embedded_jpeg_meta(old(meta)@, file_data@, preview_offset, preview_length) is Some,
    ensures
        Some(final(meta)@) == embedded_jpeg_meta(old(meta)@, file_data@, preview_offset, preview_length),
{
    read_embedded_jpeg_meta(file_data, preview_offset, preview_length, meta);
}

/// How far from the start of a file embedded previews are looked for (15 MiB).
pub const SCAN_LIMIT: usize = 15 * 1024 * 1024;

/// The longest preview considered (10 MiB).
pub const MAX_PREVIEW: usize = 10 * 1024 * 1024;

/// Whether a JPEG start-of-image marker followed by another marker is at `i`.
pub open spec fn soi_at(d: Seq<u8>, i: int) -> bool {
    0 <= i && i + 3 <= d.len() && d[i] == 0xff && d[i + 1] == 0xd8 && d[i + 2] == 0xff
}

/// The position of the first end-of-image marker at or after `s` whose two
/// bytes lie before `lim`.
pub open spec fn first_eoi(d: Seq<u8>, s: int, lim: int) -> Option<int>
    decreases lim - s,
{
    if s < 0 || s + 1 >= lim || lim > d.len() {
        None
    } else if d[s] == 0xff && d[s + 1] == 0xd9 {
        Some(s)
    } else {
        first_eoi(d, s + 1, lim)
    }
}

/// The length of the JPEG that starts at `start`: up to and including the first
/// end-of-image marker within the next 10 MiB.
pub open spec fn jpeg_len_at(d: Seq<u8>, start: int) -> Option<int> {
    let lim = if d.len() < start + MAX_PREVIEW {
        d.len() as int
    } else {
        start + MAX_PREVIEW
    };
    match first_eoi(d, start + 2, lim) {
        Some(e) => Some(e + 2 - start),
        None => None,
    }
}

/// The length of the JPEG that starts at `i`, or 0 where no JPEG starts there:
/// a start-of-image marker followed by a marker, up to and including the
/// first end-of-image marker within the next 10 MiB.
pub open spec fn candidate_len(d: Seq<u8>, i: int) -> int {
    if soi_at(d, i) {
        match jpeg_len_at(d, i) {
            Some(l) => l,
            None => 0,
        }
    } else {
        0
    }
}

/// The longest JPEG among those starting before `k`, as (offset, length); the
/// first of equal lengths wins, and (0, 0) stands for none.
pub open spec fn longest_before(d: Seq<u8>, k: int) -> (int, int)
    decreases k,
{
    if k <= 0 {
        (0, 0)
    } else {
        let b = longest_before(d, k - 1);
        let l = candidate_len(d, k - 1);
        if l > b.1 {
            (k - 1, l)
        } else {
            b
        }
    }
}

/// Where JPEG starts are looked for: the first 15 MiB, and not in the last
/// four bytes.
pub open spec fn jpeg_scan_limit(d: Seq<u8>) -> int {
    if d.len() < 4 {
        0
    } else if d.len() - 4 < SCAN_LIMIT {
        d.len() - 4
    } else {
        SCAN_LIMIT as int
    }
}

/// The largest JPEG that starts in the first 15 MiB of `d`, as offset and
/// length; the first of equal lengths.
pub open spec fn largest_jpeg(d: Seq<u8>) -> Option<(u32, u32)> {
    let b = longest_before(d, jpeg_scan_limit(d));
    if b.1 > 0 {
        Some((b.0 as u32, b.1 as u32))
    } else {
        None
    }
}

/// Searches for the largest embedded JPEG by scanning for its start and end markers.
/// After a JPEG is found the scan resumes right after it: no JPEG that starts
/// inside it can be longer.
pub fn scan_for_largest_jpeg(data: &[u8]) -> (r: Option<(u32, u32)>)
    ensures
        r == largest_jpeg(data@),
{
    let ghost d = data@;
    if data.len() < 4 {
        return None;
    }
    let mut best_offset: u32 = 0;
    let mut best_len: u32 = 0;
    let mut i: usize = 0;
    let scan_limit = if data.len() - 4 < SCAN_LIMIT {
        data.len() - 4
    } else {
        SCAN_LIMIT
    };
    while i < scan_limit
        invariant
            d == data@,
            scan_limit as int == jpeg_scan_limit(d),
            scan_limit <= SCAN_LIMIT,
            scan_limit + 4 <= d.len(),
            i <= SCAN_LIMIT + MAX_PREVIEW,
            (best_offset as int, best_len as int) == longest_before(
                d,
                if i < scan_limit { i as int } else { scan_limit as int },
            ),
        decreases (if i < scan_limit { scan_limit - i } else { 0 }),
    {
        if data[i] == 0xff && data[i + 1] == 0xd8 && data[i + 2] == 0xff {
            let start_offset = i;
            let mut search_idx = start_offset + 2;
            let search_limit = if data.len() < start_offset + MAX_PREVIEW {
                data.len()
            } else {
                start_offset + MAX_PREVIEW
            };
            let ghost lim = search_limit as int;
            let mut found: usize = 0;
            while search_idx + 1 < search_limit
                invariant_except_break
                    found == 0,
                invariant
                    d == data@,
                    search_limit <= d.len(),
                    lim == search_limit,
                    start_offset + 2 <= search_idx <= search_limit,
                    search_limit <= start_offset + MAX_PREVIEW,
                    start_offset < SCAN_LIMIT,
                    soi_at(d, start_offset as int),
                    first_eoi(d, search_idx as int, lim) == first_eoi(d, start_offset + 2, lim),
                    lim == (if d.len() < start_offset + MAX_PREVIEW {
                        d.len() as int
                    } else {
                        start_offset + MAX_PREVIEW
                    }),
                ensures
                    found as int == candidate_len(d, start_offset as int),
                    found <= MAX_PREVIEW,
                decreases search_limit - search_idx,
            {
                if data[search_idx] == 0xff && data[search_idx + 1] == 0xd9 {
                    found = search_idx + 2 - start_offset;
                    break;
                }
                search_idx += 1;
            }
            if found > 0 {
                if found as u32 > best_len {
                    best_offset = start_offset as u32;
                    best_len = found as u32;
                }
                proof {
                    let k = if start_offset + found < scan_limit {
                        start_offset + found
                    } else {
                        scan_limit as int
                    };
                    lemma_skip_inside_jpeg(d, start_offset as int, k);
                }
                i = start_offset + found;
                continue;
            }
        }
        i += 1;
    }
    if best_len > 0 {
        Some((best_offset, best_len))
    } else {
        None
    }
}

/// Whether `d` holds, at `offset`, a JPEG of `length` bytes: a start-of-image
/// marker followed by a marker, and an end-of-image marker as its last two bytes.
pub open spec fn jpeg_at(d: Seq<u8>, offset: int, length: int) -> bool {
    &&& soi_at(d, offset)
    &&& length >= 4
    &&& offset + length <= d.len()
    &&& d[offset + length - 2] == 0xff
    &&& d[offset + length - 1] == 0xd9
}

proof fn lemma_first_eoi(d: Seq<u8>, s: int, lim: int)
    ensures
        first_eoi(d, s, lim) matches Some(e) ==> s <= e && e + 1 < lim && lim <= d.len() && d[e]
            == 0xff && d[e + 1] == 0xd9,
    decreases lim - s,
{
    if !(s < 0 || s + 1 >= lim || lim > d.len()) && !(d[s] == 0xff && d[s + 1] == 0xd9) {
        lemma_first_eoi(d, s + 1, lim);
    }
}

/// Whether an end-of-image marker is at `k`.
pub open spec fn eoi_at(d: Seq<u8>, k: int) -> bool {
    0 <= k && k + 1 < d.len() && d[k] == 0xff && d[k + 1] == 0xd9
}

proof fn lemma_first_eoi_before(d: Seq<u8>, s: int, lim: int, k: int)
    requires
        first_eoi(d, s, lim) matches Some(e) && s <= k < e,
    ensures
        !eoi_at(d, k),
    decreases lim - s,
{
    if s < k {
        lemma_first_eoi_before(d, s + 1, lim, k);
    }
}

proof fn lemma_first_eoi_intro(d: Seq<u8>, s: int, lim: int, e: int)
    requires
        0 <= s <= e,
        e + 1 < lim <= d.len(),
        eoi_at(d, e),
        forall|k: int| s <= k < e ==> !eoi_at(d, k),
    ensures
        first_eoi(d, s, lim) == Some(e),
    decreases e - s,
{
    if s < e {
        assert(!eoi_at(d, s));
        lemma_first_eoi_intro(d, s + 1, lim, e);
    }
}

/// A JPEG that starts inside another is shorter than it: the end-of-image
/// marker that closes the outer one closes it too.
proof fn lemma_nested_candidate_shorter(d: Seq<u8>, i: int, j: int)
    requires
        candidate_len(d, i) > 0,
        i < j < i + candidate_len(d, i),
    ensures
        candidate_len(d, j) < candidate_len(d, i),
{
    let lim_i = if d.len() < i + MAX_PREVIEW {
        d.len() as int
    } else {
        i + MAX_PREVIEW
    };
    lemma_first_eoi(d, i + 2, lim_i);
    let e = first_eoi(d, i + 2, lim_i).unwrap();
    if soi_at(d, j) {
        assert(j + 2 <= e);
        let lim_j = if d.len() < j + MAX_PREVIEW {
            d.len() as int
        } else {
            j + MAX_PREVIEW
        };
        assert forall|k: int| j + 2 <= k < e implies !eoi_at(d, k) by {
            lemma_first_eoi_before(d, i + 2, lim_i, k);
        }
        lemma_first_eoi_intro(d, j + 2, lim_j, e);
    }
}

/// No JPEG that starts inside the one at `i` changes the longest found.
proof fn lemma_skip_inside_jpeg(d: Seq<u8>, i: int, k: int)
    requires
        0 <= i,
        candidate_len(d, i) > 0,
        i + 1 <= k <= i + candidate_len(d, i),
    ensures
        longest_before(d, k) == longest_before(d, i + 1),
    decreases k,
{
    if k > i + 1 {
        lemma_skip_inside_jpeg(d, i, k - 1);
        lemma_nested_candidate_shorter(d, i, k - 1);
    }
}

proof fn lemma_longest_before(d: Seq<u8>, k: int)
    ensures
        ({
            let b = longest_before(d, k);
            &&& b.1 >= 0
            &&& b.1 == 0 ==> b.0 == 0
            &&& b.1 > 0 ==> 0 <= b.0 < k && candidate_len(d, b.0) == b.1
            &&& forall|j: int| 0 <= j < k ==> candidate_len(d, j) <= b.1
            &&& forall|j: int| 0 <= j < b.0 ==> candidate_len(d, j) < b.1
        }),
    decreases k,
{
    if k > 0 {
        lemma_longest_before(d, k - 1);
        lemma_candidate_len(d, k - 1);
    }
}

proof fn lemma_candidate_len(d: Seq<u8>, i: int)
    ensures
        candidate_len(d, i) >= 0,
        candidate_len(d, i) <= MAX_PREVIEW,
        candidate_len(d, i) > 0 ==> jpeg_at(d, i, candidate_len(d, i)),
{
    if soi_at(d, i) {
        let lim = if d.len() < i + MAX_PREVIEW {
            d.len() as int
        } else {
            i + MAX_PREVIEW
        };
        lemma_first_eoi(d, i + 2, lim);
    }
}

/// The search for the largest embedded JPEG gives the longest JPEG that starts
/// in the first 15 MiB, the first of equal lengths, and finds none only where
/// no JPEG starts there.
pub proof fn lemma_largest_jpeg_is_longest(d: Seq<u8>)
    ensures
        largest_jpeg(d) matches Some((o, l)) ==> {
            &&& o < jpeg_scan_limit(d)
            &&& candidate_len(d, o as int) == l
            &&& forall|j: int| 0 <= j < jpeg_scan_limit(d) ==> candidate_len(d, j) <= l
            &&& forall|j: int| 0 <= j < o ==> candidate_len(d, j) < l
        },
        largest_jpeg(d) is None ==> forall|j: int|
            0 <= j < jpeg_scan_limit(d) ==> candidate_len(d, j) == 0,
{
    let k = jpeg_scan_limit(d);
    lemma_longest_before(d, k);
    let b = longest_before(d, k);
    if b.1 > 0 {
        lemma_candidate_len(d, b.0);
        assert(b.0 as u32 as int == b.0);
        assert(b.1 as u32 as int == b.1);
    } else {
        assert forall|j: int| 0 <= j < k implies candidate_len(d, j) == 0 by {
            lemma_candidate_len(d, j);
        }
    }
}

/// What the search for the largest embedded JPEG finds is a JPEG: it starts
/// with a start-of-image marker, ends with an end-of-image marker, and lies
/// within the data.
pub proof fn lemma_largest_jpeg_is_jpeg(d: Seq<u8>)
    ensures
        largest_jpeg(d) matches Some((o, l)) ==> jpeg_at(d, o as int, l as int),
{
    let k = jpeg_scan_limit(d);
    lemma_longest_before(d, k);
    let b = longest_before(d, k);
    if b.1 > 0 {
        lemma_candidate_len(d, b.0);
        assert(b.0 as u32 as int == b.0);
        assert(b.1 as u32 as int == b.1);
    }
}

proof fn lemma_exif_scan_found(d: Seq<u8>, off: int)
    requires
        d.len() <= usize::MAX,
    ensures
        exif_scan(d, off) matches ExifSearch::Found(s, e) ==> 6 <= s <= e <= d.len() && exif_id_at(
            d,
            s - 6,
        ),
    decreases d.len() - off,
{
    if off < 0 || off + 4 > d.len() {
    } else if d[off] != 0xff {
        lemma_exif_scan_found(d, off + 1);
    } else {
        let marker = d[off + 1];
        if marker == 0 || marker == 0xff {
            lemma_exif_scan_found(d, off + 1);
        } else if marker != 0xd9 {
            let length = 256 * d[off + 2] + d[off + 3];
            let end = off + 2 + length;
            if end <= d.len() && !(marker == 0xe1 && length < 2) && !(marker == 0xe1 && length - 2
                >= 6 && exif_id_at(d, off + 4)) {
                lemma_exif_scan_found(d, end);
            }
        }
    }
}

/// The TIFF data taken from a JPEG stream lies within it, right after an
/// `"Exif\0\0"` identifier.
pub proof fn lemma_exif_follows_identifier(d: Seq<u8>)
    requires
        d.len() <= usize::MAX,
    ensures
        jpeg_exif(d) matches ExifSearch::Found(s, e) ==> 6 <= s <= e <= d.len() && exif_id_at(
            d,
            s - 6,
        ),
{
    if !(d.len() < 4 || d[0] != 0xff || d[1] != 0xd8) {
        lemma_exif_scan_found(d, 2);
    }
}

/// A JPEG stream's EXIF is the first APP1 segment (marker `FF E1`) whose
/// payload starts with "Exif\0\0": its TIFF data runs from right after that
/// identifier to the end of the segment, whose big-endian length counts
/// itself.
pub proof fn lemma_exif_segment_found(d: Seq<u8>, off: int)
    requires
        0 <= off,
        off + 10 <= d.len(),
        d[off] == 0xff && d[off + 1] == 0xe1,
        8 <= 256 * d[off + 2] + d[off + 3],
        off + 2 + 256 * d[off + 2] + d[off + 3] <= d.len(),
        d.subrange(off + 4, off + 10) == seq![0x45u8, 0x78, 0x69, 0x66, 0, 0],
    ensures
        exif_scan(d, off) == ExifSearch::Found((off + 10) as usize, (off + 2 + 256 * d[off + 2] + d[off + 3]) as usize),
{
    let id = d.subrange(off + 4, off + 10);
    assert(id[0] == d[off + 4] && id[1] == d[off + 5] && id[2] == d[off + 6] && id[3] == d[off + 7]
        && id[4] == d[off + 8] && id[5] == d[off + 9]);
}

/// Any other marker segment that fits in the stream is passed over: an APP1
/// segment without the EXIF identifier, or a segment of another marker than
/// end-of-image, and the search goes on after it.
pub proof fn lemma_other_segment_skipped(d: Seq<u8>, off: int)
    requires
        0 <= off,
        off + 4 <= d.len(),
        d[off] == 0xff,
        d[off + 1] != 0 && d[off + 1] != 0xff && d[off + 1] != 0xd9,
        2 <= 256 * d[off + 2] + d[off + 3],
        off + 2 + 256 * d[off + 2] + d[off + 3] <= d.len(),
        d[off + 1] == 0xe1 ==> !(off + 10 <= d.len() && d.subrange(off + 4, off + 10) == seq![
            0x45u8, 0x78, 0x69, 0x66, 0, 0,
        ]),
    ensures
        exif_scan(d, off) == exif_scan(d, off + 2 + 256 * d[off + 2] + d[off + 3]),
{
    if d[off + 1] == 0xe1 && 256 * d[off + 2] + d[off + 3] - 2 >= 6 && exif_id_at(d, off + 4) {
        assert(d.subrange(off + 4, off + 10) =~= seq![0x45u8, 0x78, 0x69, 0x66, 0, 0]);
    }
}

/// The EXIF search of a JPEG stream starts right after its start-of-image
/// marker; a stream without one has no EXIF.
pub proof fn lemma_exif_search_starts_after_soi(d: Seq<u8>)
    ensures
        d.len() >= 4 && d[0] == 0xff && d[1] == 0xd8 ==> jpeg_exif(d) == exif_scan(d, 2),
        !(d.len() >= 2 && d[0] == 0xff && d[1] == 0xd8) ==> jpeg_exif(d) == ExifSearch::Absent,
{
}

/// Reading the EXIF of an embedded JPEG only fills in tags: everything known,
/// the preview among it, is kept.
pub proof fn lemma_embedded_jpeg_keeps_known(m: MetaView, d: Seq<u8>, offset: u32, length: u32)
    ensures
        embedded_jpeg_meta(m, d, offset, length) matches Some(m2) ==> keeps_known(m, m2),
{
    if !(length == 0 || offset as int + length as int > d.len()) {
        let jpeg = d.subrange(offset as int, offset as int + length as int);
        match jpeg_exif(jpeg) {
            ExifSearch::Found(s, e) => lemma_tiff_parse_keeps_known(
                m,
                jpeg.subrange(s as int, e as int),
                false,
            ),
            _ => {},
        }
    }
}

} // verus!
