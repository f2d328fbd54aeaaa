//! TIFF/EXIF metadata: the image file directories (IFDs) reachable from the
//! header, walked depth-first, and the tags read from their entries.
use std::collections::HashSet;
use vstd::prelude::*;

use crate::bytes::{read_u16_at, read_u32_at, spec_read_u16, spec_read_u32};
use crate::metadata::{opt_text, MetaView, RawMetadata};
use crate::text::{field_text, text_of_field};

verus! {

broadcast use vstd::std_specs::hash::group_hash_axioms;

pub const TAG_MAKE: u16 = 0x010f;
pub const TAG_MODEL: u16 = 0x0110;
pub const TAG_LENS_MODEL: u16 = 0xa434;
pub const TAG_ORIENTATION: u16 = 0x0112;
pub const TAG_SUB_IFDS: u16 = 0x014a;
pub const TAG_EXIF_IFD: u16 = 0x8769;
pub const TAG_JPEG_OFFSET: u16 = 0x0201;
pub const TAG_JPEG_LENGTH: u16 = 0x0202;
pub const TAG_EXPOSURE_TIME: u16 = 0x829a;
pub const TAG_F_NUMBER: u16 = 0x829d;
pub const TAG_ISO: u16 = 0x8827;
pub const TAG_FOCAL_LENGTH: u16 = 0x920a;
pub const TAG_DATE_TIME_ORIGINAL: u16 = 0x9003;

// ---------------------------------------------------------------------------
// The model of the format
// ---------------------------------------------------------------------------

/// `cur` when it is set, else `v`: a field keeps the first value found for it.
pub open spec fn or_else<T>(cur: Option<T>, v: Option<T>) -> Option<T> {
    match cur {
        Some(x) => Some(x),
        None => v,
    }
}

/// An optional 64-bit value as an integer.
pub open spec fn opt_int(o: Option<u64>) -> Option<int> {
    match o {
        Some(v) => Some(v as int),
        None => None,
    }
}

/// Position of entry `i` of the directory at `ifd`: a 2-byte count, then 12-byte entries.
pub open spec fn entry_pos(ifd: int, i: int) -> int {
    ifd + 2 + 12 * i
}

/// Where the value of an entry at `e` lies: inline when `size * count` bytes fit
/// in 4, else at the 32-bit offset stored in the entry.
pub open spec fn spec_field_offset(d: Seq<u8>, le: bool, e: int, size: int, count: int) -> Option<int> {
    if size * count <= 4 {
        Some(e + 8)
    } else {
        match spec_read_u32(d, le, e + 8) {
            Some(v) => Some(v as int),
            None => None,
        }
    }
}

/// The text of the `count`-byte string field at `off`.
pub open spec fn spec_read_string(d: Seq<u8>, off: int, count: int) -> Option<Seq<char>> {
    if off + count > d.len() {
        None
    } else {
        Some(field_text(d.subrange(off, off + count)))
    }
}

/// The text of an ASCII entry.
pub open spec fn spec_read_ascii(d: Seq<u8>, le: bool, e: int, count: int) -> Option<Seq<char>> {
    match spec_field_offset(d, le, e, 1, count) {
        Some(off) => spec_read_string(d, off, count),
        None => None,
    }
}

/// Byte size of the integer entry types: BYTE/UNDEFINED, SHORT/SSHORT, LONG/SLONG.
pub open spec fn numeric_size(typ: u16) -> int {
    if typ == 1 || typ == 7 {
        1
    } else if typ == 3 || typ == 8 {
        2
    } else if typ == 4 || typ == 9 {
        4
    } else {
        0
    }
}

/// The first value of an integer entry.
pub open spec fn spec_read_numeric(d: Seq<u8>, le: bool, e: int, typ: u16, count: int) -> Option<u32> {
    let size = numeric_size(typ);
    if count == 0 || size == 0 {
        None
    } else {
        match spec_field_offset(d, le, e, size, count) {
            None => None,
            Some(off) => if size == 1 {
                if 0 <= off < d.len() {
                    Some(d[off] as u32)
                } else {
                    None
                }
            } else if size == 2 {
                match spec_read_u16(d, le, off) {
                    Some(v) => Some(v as u32),
                    None => None,
                }
            } else {
                spec_read_u32(d, le, off)
            },
        }
    }
}

/// The first numerator and denominator of a RATIONAL entry.
pub open spec fn spec_read_rational(d: Seq<u8>, le: bool, e: int, count: int) -> Option<(u32, u32)> {
    if count == 0 {
        None
    } else {
        match spec_field_offset(d, le, e, 8, count) {
            None => None,
            Some(off) => match (spec_read_u32(d, le, off), spec_read_u32(d, le, off + 4)) {
                (Some(n), Some(den)) => Some((n, den)),
                _ => None,
            },
        }
    }
}

/// A rational with a nonzero denominator; others carry no value.
pub open spec fn proper_rational(r: Option<(u32, u32)>) -> Option<(u32, u32)> {
    match r {
        Some(p) => if p.1 != 0 {
            Some(p)
        } else {
            None
        },
        None => None,
    }
}

/// Tag, type and count of the entry at `e`, when all three can be read.
pub open spec fn entry_header(d: Seq<u8>, le: bool, e: int) -> Option<(u16, u16, u32)> {
    match (spec_read_u16(d, le, e), spec_read_u16(d, le, e + 2), spec_read_u32(d, le, e + 4)) {
        (Some(tag), Some(typ), Some(count)) => Some((tag, typ, count)),
        _ => None,
    }
}

/// What one entry adds to the metadata: each field keeps the first value found.
pub open spec fn apply_entry(m: MetaView, d: Seq<u8>, le: bool, e: int) -> MetaView {
    match entry_header(d, le, e) {
        None => m,
        Some((tag, typ, count)) => {
            let c = count as int;
            if tag == TAG_MAKE {
                MetaView { camera_make: or_else(m.camera_make, spec_read_ascii(d, le, e, c)), ..m }
            } else if tag == TAG_MODEL {
                MetaView { camera_model: or_else(m.camera_model, spec_read_ascii(d, le, e, c)), ..m }
            } else if tag == TAG_LENS_MODEL {
                MetaView { lens_model: or_else(m.lens_model, spec_read_ascii(d, le, e, c)), ..m }
            } else if tag == TAG_ORIENTATION {
                let v = match spec_read_numeric(d, le, e, typ, c) {
                    Some(v) => Some(v as u16),
                    None => None,
                };
                MetaView { orientation: or_else(m.orientation, v), ..m }
            } else if tag == TAG_EXPOSURE_TIME {
                MetaView {
                    exposure_time: or_else(
                        m.exposure_time,
                        proper_rational(spec_read_rational(d, le, e, c)),
                    ),
                    ..m
                }
            } else if tag == TAG_F_NUMBER {
                MetaView {
                    aperture: or_else(m.aperture, proper_rational(spec_read_rational(d, le, e, c))),
                    ..m
                }
            } else if tag == TAG_ISO {
                MetaView { iso: or_else(m.iso, spec_read_numeric(d, le, e, typ, c)), ..m }
            } else if tag == TAG_FOCAL_LENGTH {
                MetaView {
                    focal_length: or_else(
                        m.focal_length,
                        proper_rational(spec_read_rational(d, le, e, c)),
                    ),
                    ..m
                }
            } else if tag == TAG_DATE_TIME_ORIGINAL {
                MetaView { date_time: or_else(m.date_time, spec_read_ascii(d, le, e, c)), ..m }
            } else {
                m
            }
        },
    }
}

/// Byte size of the offsets a SubIFDs entry may hold (SHORT or LONG), 0 for other types.
pub open spec fn subifd_size(typ: u16) -> int {
    if typ == 3 || typ == 8 {
        2
    } else if typ == 4 || typ == 9 {
        4
    } else {
        0
    }
}

/// The `c`-th offset of a SubIFDs array at `off`.
pub open spec fn subifd_at(d: Seq<u8>, le: bool, off: int, size: int, c: int) -> Option<u32> {
    if size == 2 {
        match spec_read_u16(d, le, off + 2 * c) {
            Some(v) => Some(v as u32),
            None => None,
        }
    } else {
        spec_read_u32(d, le, off + 4 * c)
    }
}

/// The readable offsets among the first `n` of a SubIFDs array, in order.
pub open spec fn subifd_list(d: Seq<u8>, le: bool, off: int, size: int, n: nat) -> Seq<u32>
    decreases n,
{
    if n == 0 {
        seq![]
    } else {
        let prev = subifd_list(d, le, off, size, (n - 1) as nat);
        match subifd_at(d, le, off, size, n - 1) {
            Some(v) => prev.push(v),
            None => prev,
        }
    }
}

/// The directory offsets that the entry at `e` schedules for a visit.
pub open spec fn entry_links(d: Seq<u8>, le: bool, e: int) -> Seq<u32> {
    match entry_header(d, le, e) {
        None => seq![],
        Some((tag, typ, count)) => if tag == TAG_SUB_IFDS {
            let size = subifd_size(typ);
            if size == 0 {
                seq![]
            } else {
                match spec_field_offset(d, le, e, size, count as int) {
                    Some(off) => subifd_list(d, le, off, size, count as nat),
                    None => seq![],
                }
            }
        } else if tag == TAG_EXIF_IFD {
            match spec_read_numeric(d, le, e, typ, count as int) {
                Some(v) => seq![v],
                None => seq![],
            }
        } else {
            seq![]
        },
    }
}

/// The preview offset and length seen so far in a directory, updated by the
/// entry at `e`: a later JPEGInterchangeFormat(Length) entry replaces an
/// earlier one. Only file-level directories describe the file's preview.
pub open spec fn entry_preview(
    d: Seq<u8>,
    le: bool,
    e: int,
    level: bool,
    pv: (Option<u32>, Option<u32>),
) -> (Option<u32>, Option<u32>) {
    match entry_header(d, le, e) {
        None => pv,
        Some((tag, typ, count)) => if tag == TAG_JPEG_OFFSET && level {
            match spec_read_numeric(d, le, e, typ, count as int) {
                Some(v) => (Some(v), pv.1),
                None => pv,
            }
        } else if tag == TAG_JPEG_LENGTH && level {
            match spec_read_numeric(d, le, e, typ, count as int) {
                Some(v) => (pv.0, Some(v)),
                None => pv,
            }
        } else {
            pv
        },
    }
}

/// The metadata after the first `k` entries of the directory at `ifd`.
pub open spec fn apply_entries(m: MetaView, d: Seq<u8>, le: bool, ifd: int, k: nat) -> MetaView
    decreases k,
{
    if k == 0 {
        m
    } else {
        apply_entry(apply_entries(m, d, le, ifd, (k - 1) as nat), d, le, entry_pos(ifd, k - 1))
    }
}

/// The directory offsets scheduled by the first `k` entries of the directory at `ifd`.
pub open spec fn entries_links(d: Seq<u8>, le: bool, ifd: int, k: nat) -> Seq<u32>
    decreases k,
{
    if k == 0 {
        seq![]
    } else {
        entries_links(d, le, ifd, (k - 1) as nat) + entry_links(d, le, entry_pos(ifd, k - 1))
    }
}

/// The preview offset and length given by the first `k` entries of the directory at `ifd`.
pub open spec fn entries_preview(d: Seq<u8>, le: bool, ifd: int, k: nat, level: bool) -> (
    Option<u32>,
    Option<u32>,
)
    decreases k,
{
    if k == 0 {
        (None, None)
    } else {
        entry_preview(
            d,
            le,
            entry_pos(ifd, k - 1),
            level,
            entries_preview(d, le, ifd, (k - 1) as nat, level),
        )
    }
}

/// The link to the next directory in the chain, stored after the `n` entries (0 ends the chain).
pub open spec fn next_link(d: Seq<u8>, le: bool, ifd: int, n: nat) -> Seq<u32> {
    match spec_read_u32(d, le, entry_pos(ifd, n as int)) {
        Some(v) => if v != 0 {
            seq![v]
        } else {
            seq![]
        },
        None => seq![],
    }
}

/// The directory offsets scheduled when the directory at `ifd` is read, in the
/// order they are scheduled: the next directory first, then those named by entries.
pub open spec fn ifd_links(d: Seq<u8>, le: bool, ifd: u32) -> Seq<u32> {
    match spec_read_u16(d, le, ifd as int) {
        None => seq![],
        Some(n) => next_link(d, le, ifd as int, n as nat) + entries_links(d, le, ifd as int, n as nat),
    }
}

/// The order in which directories are read: the most recently scheduled offset
/// first, skipping 0 and offsets already read.
pub open spec fn ifd_walk(d: Seq<u8>, le: bool, queue: Seq<u32>, visited: Set<u32>) -> Seq<u32>
    decreases Set::<u32>::full().difference(visited).len(), queue.len(),
{
    if queue.len() == 0 {
        seq![]
    } else {
        let x = queue.last();
        let rest = queue.drop_last();
        if x == 0 || visited.contains(x) {
            ifd_walk(d, le, rest, visited)
        } else {
            proof {
                <u32 as vstd::set_lib::FiniteFull>::full_properties();
                Set::<u32>::full().lemma_set_insert_diff_decreases(visited, x);
            }
            seq![x] + ifd_walk(d, le, rest + ifd_links(d, le, x), visited.insert(x))
        }
    }
}

/// The metadata after reading the directory at `ifd`.
pub open spec fn apply_ifd(m: MetaView, d: Seq<u8>, le: bool, ifd: u32) -> MetaView {
    match spec_read_u16(d, le, ifd as int) {
        None => m,
        Some(n) => apply_entries(m, d, le, ifd as int, n as nat),
    }
}

/// The metadata after reading the directories `ifds` in order.
pub open spec fn apply_ifds(m: MetaView, d: Seq<u8>, le: bool, ifds: Seq<u32>) -> MetaView
    decreases ifds.len(),
{
    if ifds.len() == 0 {
        m
    } else {
        apply_ifd(apply_ifds(m, d, le, ifds.drop_last()), d, le, ifds.last())
    }
}

/// The preview offset and length the directory at `ifd` gives.
pub open spec fn ifd_preview(d: Seq<u8>, le: bool, ifd: u32, level: bool) -> (Option<u32>, Option<u32>) {
    match spec_read_u16(d, le, ifd as int) {
        None => (None, None),
        Some(n) => entries_preview(d, le, ifd as int, n as nat, level),
    }
}

/// The largest preview among the directories `ifds`, as offset and length;
/// the first of equal lengths wins; `(0, 0)` when none gives both.
pub open spec fn best_preview(d: Seq<u8>, le: bool, ifds: Seq<u32>, level: bool) -> (u32, u32)
    decreases ifds.len(),
{
    if ifds.len() == 0 {
        (0, 0)
    } else {
        let b = best_preview(d, le, ifds.drop_last(), level);
        match ifd_preview(d, le, ifds.last(), level) {
            (Some(o), Some(l)) => if l > b.1 {
                (o, l)
            } else {
                b
            },
            _ => b,
        }
    }
}

/// Byte order and first directory offset of a TIFF header: "II" (little-endian)
/// or "MM" (big-endian), the magic number 42, then the offset.
pub open spec fn tiff_header(d: Seq<u8>) -> Option<(bool, u32)> {
    if d.len() < 8 {
        None
    } else {
        let le = d[0] == 0x49 && d[1] == 0x49;
        let be = d[0] == 0x4d && d[1] == 0x4d;
        if !le && !be {
            None
        } else if spec_read_u16(d, le, 2) != Some(42u16) {
            None
        } else {
            match spec_read_u32(d, le, 4) {
                Some(off) => Some((le, off)),
                None => None,
            }
        }
    }
}

/// The directories of the TIFF structure `d`, in the order they are read.
pub open spec fn tiff_ifd_order(d: Seq<u8>, le: bool, ifd0: u32) -> Seq<u32> {
    ifd_walk(d, le, seq![ifd0], Set::empty())
}

/// What reading the TIFF structure `d` makes of the metadata `m`. Each field
/// keeps its first value, from `m` or else from the directories in reading
/// order; at file level, the largest preview the directories give replaces a
/// smaller one.
pub open spec fn tiff_parse(m: MetaView, d: Seq<u8>, level: bool) -> MetaView {
    match tiff_header(d) {
        None => m,
        Some((le, ifd0)) => {
            let order = tiff_ifd_order(d, le, ifd0);
            let m1 = apply_ifds(m, d, le, order);
            let b = best_preview(d, le, order, level);
            if level && b.1 > 0 && b.1 > m1.preview_length {
                MetaView { preview_offset: b.0, preview_length: b.1, ..m1 }
            } else {
                m1
            }
        },
    }
}

// ---------------------------------------------------------------------------
// Reading
// ---------------------------------------------------------------------------

/// `size * count` bytes fit in four exactly when `count` is at most `4 / size`.
proof fn lemma_fits_inline(size: int, count: int)
    requires
        size >= 1,
        count >= 0,
    ensures
        (size * count <= 4) == (count <= 4int / size),
{
    if size >= 5 {
        assert(4int / size == 0) by (nonlinear_arith)
            requires
                size >= 5,
        ;
        if count >= 1 {
            assert(size * count >= size) by (nonlinear_arith)
                requires
                    count >= 1,
                    size >= 1,
            ;
        }
    } else if size == 1 {
        assert(4int / 1 == 4);
    } else if size == 2 {
        assert(4int / 2 == 2);
    } else if size == 3 {
        assert(4int / 3 == 1);
    } else {
        assert(4int / 4 == 1);
    }
}

struct TIFFReader<'a> {
    data: &'a [u8],
    is_little_endian: bool,
}

impl<'a> TIFFReader<'a> {
    fn read_u16(&self, offset: u64) -> (r: Option<u16>)
        ensures
            r == spec_read_u16(self.data@, self.is_little_endian, offset as int),
    {
        read_u16_at(self.data, self.is_little_endian, offset)
    }

    fn read_u32(&self, offset: u64) -> (r: Option<u32>)
        ensures
            r == spec_read_u32(self.data@, self.is_little_endian, offset as int),
    {
        read_u32_at(self.data, self.is_little_endian, offset)
    }

    fn read_string(&self, offset: u64, count: u64) -> (r: Option<String>)
        ensures
            opt_text(r) == spec_read_string(self.data@, offset as int, count as int),
    {
        let len = self.data.len() as u64;
        if offset > len || count > len - offset {
            return None;
        }
        let bytes = &self.data[offset as usize..(offset + count) as usize];
        Some(text_of_field(bytes))
    }

    fn get_field_offset(&self, entry_offset: u64, type_size: u64, count: u64) -> (r: Option<u64>)
        requires
            entry_offset + 8 <= u64::MAX,
        ensures
            opt_int(r) == spec_field_offset(
                self.data@,
                self.is_little_endian,
                entry_offset as int,
                type_size as int,
                count as int,
            ),
            r matches Some(v) ==> v <= entry_offset + 8 || v <= u32::MAX,
    {
        proof {
            if type_size >= 1 {
                lemma_fits_inline(type_size as int, count as int);
            }
        }
        if type_size == 0 || count <= 4 / type_size {
            Some(entry_offset + 8)
        } else {
            match self.read_u32(entry_offset + 8) {
                Some(off) => Some(off as u64),
                None => None,
            }
        }
    }

    fn read_ascii_tag(&self, entry_offset: u64, count: u64) -> (r: Option<String>)
        requires
            entry_offset + 8 <= u64::MAX,
        ensures
            opt_text(r) == spec_read_ascii(
                self.data@,
                self.is_little_endian,
                entry_offset as int,
                count as int,
            ),
    {
        match self.get_field_offset(entry_offset, 1, count) {
            Some(offset) => self.read_string(offset, count),
            None => None,
        }
    }

    fn read_numeric_tag(&self, entry_offset: u64, tag_type: u16, count: u64) -> (r: Option<u32>)
        requires
            entry_offset + 8 <= u64::MAX,
        ensures
            r == spec_read_numeric(
                self.data@,
                self.is_little_endian,
                entry_offset as int,
                tag_type,
                count as int,
            ),
    {
        if count == 0 {
            return None;
        }
        let type_size: u64 = if tag_type == 1 || tag_type == 7 {
            1
        } else if tag_type == 3 || tag_type == 8 {
            2
        } else if tag_type == 4 || tag_type == 9 {
            4
        } else {
            return None;
        };
        let offset = match self.get_field_offset(entry_offset, type_size, count) {
            Some(o) => o,
            None => return None,
        };
        if type_size == 1 {
            if offset < self.data.len() as u64 {
                Some(self.data[offset as usize] as u32)
            } else {
                None
            }
        } else if type_size == 2 {
            match self.read_u16(offset) {
                Some(v) => Some(v as u32),
                None => None,
            }
        } else {
            self.read_u32(offset)
        }
    }

    fn read_rational_tag(&self, entry_offset: u64, count: u64) -> (r: Option<(u32, u32)>)
        requires
            entry_offset + 8 <= u64::MAX,
        ensures
            r == spec_read_rational(
                self.data@,
                self.is_little_endian,
                entry_offset as int,
                count as int,
            ),
    {
        if count == 0 {
            return None;
        }
        let offset = match self.get_field_offset(entry_offset, 8, count) {
            Some(o) => o,
            None => return None,
        };
        let num = match self.read_u32(offset) {
            Some(v) => v,
            None => return None,
        };
        let den = match self.read_u32(offset + 4) {
            Some(v) => v,
            None => return None,
        };
        Some((num, den))
    }
}


/// Reads the entry at `e` into the metadata, schedules the directories it names,
/// and updates the directory's preview offset and length.
fn process_entry(
    reader: &TIFFReader,
    e: u64,
    level: bool,
    meta: &mut RawMetadata,
    queue: &mut Vec<u32>,
    pv: &mut (Option<u32>, Option<u32>),
)
    requires
        e < 0x2_0000_0000,
    ensures
        final(meta)@ == apply_entry(old(meta)@, reader.data@, reader.is_little_endian, e as int),
        final(queue)@ == old(queue)@ + entry_links(reader.data@, reader.is_little_endian, e as int),
        *final(pv) == entry_preview(reader.data@, reader.is_little_endian, e as int, level, *old(pv)),
{
    let ghost d = reader.data@;
    let ghost le = reader.is_little_endian;
    let tag = match reader.read_u16(e) {
        Some(t) => t,
        None => {
            assert(queue@ =~= old(queue)@ + seq![]);
            return ;
        },
    };
    let tag_type = match reader.read_u16(e + 2) {
        Some(t) => t,
        None => {
            assert(queue@ =~= old(queue)@ + seq![]);
            return ;
        },
    };
    let count = match reader.read_u32(e + 4) {
        Some(c) => c as u64,
        None => {
            assert(queue@ =~= old(queue)@ + seq![]);
            return ;
        },
    };
    assert(entry_header(d, le, e as int) == Some((tag, tag_type, count as u32)));
    if tag == TAG_SUB_IFDS {
        let type_size: u64 = if tag_type == 3 || tag_type == 8 {
            2
        } else if tag_type == 4 || tag_type == 9 {
            4
        } else {
            assert(queue@ =~= old(queue)@ + seq![]);
            return ;
        };
        match reader.get_field_offset(e, type_size, count) {
            Some(offset) => {
                let ghost q0 = queue@;
                let mut c: u64 = 0;
                while c < count
                    invariant
                        0 <= c <= count,
                        count <= u32::MAX,
                        offset < 0x4_0000_0000,
                        type_size == 2 || type_size == 4,
                        d == reader.data@,
                        le == reader.is_little_endian,
                        queue@ == q0 + subifd_list(d, le, offset as int, type_size as int, c as nat),
                    decreases count - c,
                {
                    let sub_ifd = if type_size == 2 {
                        match reader.read_u16(offset + c * 2) {
                            Some(v) => Some(v as u32),
                            None => None,
                        }
                    } else {
                        reader.read_u32(offset + c * 4)
                    };
                    assert(sub_ifd == subifd_at(d, le, offset as int, type_size as int, c as int));
                    let ghost prev = queue@;
                    if let Some(sub_ifd_offset) = sub_ifd {
                        queue.push(sub_ifd_offset);
                        assert(queue@ =~= q0 + subifd_list(
                            d,
                            le,
                            offset as int,
                            type_size as int,
                            (c + 1) as nat,
                        ));
                    }
                    c += 1;
                }
            },
            None => {
                assert(queue@ =~= old(queue)@ + seq![]);
            },
        }
        return ;
    }
    if tag == TAG_EXIF_IFD {
        if let Some(exif_offset) = reader.read_numeric_tag(e, tag_type, count) {
            queue.push(exif_offset);
        } else {
            assert(queue@ =~= old(queue)@ + seq![]);
        }
        return ;
    }
    assert(queue@ =~= old(queue)@ + seq![]);
    if tag == TAG_MAKE {
        if meta.camera_make.is_none() {
            meta.camera_make = reader.read_ascii_tag(e, count);
        }
    } else if tag == TAG_MODEL {
        if meta.camera_model.is_none() {
            meta.camera_model = reader.read_ascii_tag(e, count);
        }
    } else if tag == TAG_LENS_MODEL {
        if meta.lens_model.is_none() {
            meta.lens_model = reader.read_ascii_tag(e, count);
        }
    } else if tag == TAG_ORIENTATION {
        if meta.orientation.is_none() {
            if let Some(val) = reader.read_numeric_tag(e, tag_type, count) {
                meta.orientation = Some(val as u16);
            }
        }
    } else if tag == TAG_JPEG_OFFSET {
        if let Some(off) = reader.read_numeric_tag(e, tag_type, count) {
            if level {
                pv.0 = Some(off);
            }
        }
    } else if tag == TAG_JPEG_LENGTH {
        if let Some(len) = reader.read_numeric_tag(e, tag_type, count) {
            if level {
                pv.1 = Some(len);
            }
        }
    } else if tag == TAG_EXPOSURE_TIME {
        if meta.exposure_time.is_none() {
            if let Some((num, den)) = reader.read_rational_tag(e, count) {
                if den != 0 {
                    meta.exposure_time = Some((num, den));
                }
            }
        }
    } else if tag == TAG_F_NUMBER {
        if meta.aperture.is_none() {
            if let Some((num, den)) = reader.read_rational_tag(e, count) {
                if den != 0 {
                    meta.aperture = Some((num, den));
                }
            }
        }
    } else if tag == TAG_ISO {
        if meta.iso.is_none() {
            if let Some(val) = reader.read_numeric_tag(e, tag_type, count) {
                meta.iso = Some(val);
            }
        }
    } else if tag == TAG_FOCAL_LENGTH {
        if meta.focal_length.is_none() {
            if let Some((num, den)) = reader.read_rational_tag(e, count) {
                if den != 0 {
                    meta.focal_length = Some((num, den));
                }
            }
        }
    } else if tag == TAG_DATE_TIME_ORIGINAL {
        if meta.date_time.is_none() {
            meta.date_time = reader.read_ascii_tag(e, count);
        }
    }
}

/// Reads the `num_entries` entries of the directory at `ifd_offset`, schedules
/// the next directory of the chain and those the entries name, and returns the
/// preview offset and length the directory gives.
fn process_ifd(
    reader: &TIFFReader,
    ifd_offset: u32,
    num_entries: u16,
    level: bool,
    meta: &mut RawMetadata,
    queue: &mut Vec<u32>,
) -> (pv: (Option<u32>, Option<u32>))
    requires
        spec_read_u16(reader.data@, reader.is_little_endian, ifd_offset as int) == Some(num_entries),
    ensures
        final(meta)@ == apply_ifd(old(meta)@, reader.data@, reader.is_little_endian, ifd_offset),
        final(queue)@ == old(queue)@ + ifd_links(reader.data@, reader.is_little_endian, ifd_offset),
        pv == ifd_preview(reader.data@, reader.is_little_endian, ifd_offset, level),
{
    let ghost d = reader.data@;
    let ghost le = reader.is_little_endian;
    let ghost m0 = meta@;
    let ghost q_in = queue@;
    let n = num_entries as u64;
    let next_ifd_offset_pos = ifd_offset as u64 + 2 + n * 12;
    match reader.read_u32(next_ifd_offset_pos) {
        Some(next_ifd) => {
            if next_ifd != 0 {
                queue.push(next_ifd);
            }
        },
        None => {},
    }
    let ghost q1 = queue@;
    assert(q1 =~= q_in + next_link(d, le, ifd_offset as int, n as nat));
    let mut pv: (Option<u32>, Option<u32>) = (None, None);
    let mut i: u64 = 0;
    while i < n
        invariant
            0 <= i <= n,
            n == num_entries as u64,
            d == reader.data@,
            le == reader.is_little_endian,
            meta@ == apply_entries(m0, d, le, ifd_offset as int, i as nat),
            queue@ == q1 + entries_links(d, le, ifd_offset as int, i as nat),
            pv == entries_preview(d, le, ifd_offset as int, i as nat, level),
        decreases n - i,
    {
        let entry_offset = ifd_offset as u64 + 2 + i * 12;
        let ghost qa = queue@;
        process_entry(reader, entry_offset, level, meta, queue, &mut pv);
        assert(queue@ =~= q1 + entries_links(d, le, ifd_offset as int, (i + 1) as nat));
        i += 1;
    }
    assert(queue@ =~= q_in + ifd_links(d, le, ifd_offset));
    pv
}

/// Reads the TIFF structure `tiff_data` into `meta`: every tag keeps the first
/// value found, from `meta` or else from the directories in reading order; at
/// file level (`is_file_level`), the largest embedded JPEG preview replaces a
/// smaller one in `meta`.
pub fn parse_tiff_bytes(tiff_data: &[u8], meta: &mut RawMetadata, is_file_level: bool)
    ensures
        final(meta)@ == tiff_parse(old(meta)@, tiff_data@, is_file_level),
{
    if tiff_data.len() < 8 {
        return ;
    }
    let is_little_endian = if tiff_data[0] == 0x49 && tiff_data[1] == 0x49 {
        true
    } else if tiff_data[0] == 0x4d && tiff_data[1] == 0x4d {
        false
    } else {
        return ;
    };
    let reader = TIFFReader { data: tiff_data, is_little_endian };
    let magic = reader.read_u16(2);
    if magic != Some(42u16) {
        return ;
    }
    let ifd0_offset = match reader.read_u32(4) {
        Some(off) => off,
        None => return ,
    };
    let ghost d = tiff_data@;
    let ghost le = is_little_endian;
    let ghost m0 = meta@;
    let mut visited_ifds: HashSet<u32> = HashSet::new();
    let mut ifd_queue: Vec<u32> = Vec::new();
    ifd_queue.push(ifd0_offset);
    let ghost total = ifd_walk(d, le, ifd_queue@, visited_ifds@);
    assert(ifd_queue@ =~= seq![ifd0_offset]);
    let ghost mut done: Seq<u32> = seq![];
    let mut best_preview_offset: u32 = 0;
    let mut best_preview_length: u32 = 0;
    while ifd_queue.len() > 0
        invariant
            d == reader.data@,
            le == reader.is_little_endian,
            total == done + ifd_walk(d, le, ifd_queue@, visited_ifds@),
            meta@ == apply_ifds(m0, d, le, done),
            (best_preview_offset, best_preview_length) == best_preview(d, le, done, is_file_level),
        decreases Set::<u32>::full().difference(visited_ifds@).len(), ifd_queue@.len(),
    {
        let ghost q = ifd_queue@;
        let ghost v = visited_ifds@;
        let ifd_offset = ifd_queue.pop().unwrap();
        assert(ifd_queue@ == q.drop_last());
        if ifd_offset == 0 {
            assert(done + ifd_walk(d, le, ifd_queue@, v) == total);
            continue;
        }
        if !visited_ifds.insert(ifd_offset) {
            assert(v.insert(ifd_offset) =~= v);
            assert(done + ifd_walk(d, le, ifd_queue@, v) == total);
            continue;
        }
        proof {
            <u32 as vstd::set_lib::FiniteFull>::full_properties();
            Set::<u32>::full().lemma_set_insert_diff_decreases(v, ifd_offset);
            assert(done.push(ifd_offset).drop_last() =~= done);
        }
        let ghost rest = ifd_queue@;
        match reader.read_u16(ifd_offset as u64) {
            Some(num_entries) => {
                let pv = process_ifd(&reader, ifd_offset, num_entries, is_file_level, meta, &mut ifd_queue);
                match pv {
                    (Some(off), Some(len)) => {
                        if len > best_preview_length {
                            best_preview_offset = off;
                            best_preview_length = len;
                        }
                    },
                    _ => {},
                }
            },
            None => {
                assert(ifd_queue@ =~= rest + ifd_links(d, le, ifd_offset));
            },
        }
        proof {
            let w = ifd_walk(d, le, ifd_queue@, visited_ifds@);
            assert(ifd_walk(d, le, q, v) == seq![ifd_offset] + w);
            assert(done + (seq![ifd_offset] + w) =~= done.push(ifd_offset) + w);
            done = done.push(ifd_offset);
        }
    }
    assert(done =~= total);
    if is_file_level && best_preview_length > 0 {
        if best_preview_length > meta.preview_length {
            meta.preview_offset = best_preview_offset;
            meta.preview_length = best_preview_length;
        }
    }
}

// ---------------------------------------------------------------------------
// Laws
// ---------------------------------------------------------------------------

/// `m2` keeps everything known in `m`: the file's name, path, size and preview
/// are unchanged, and every tag that `m` holds a value for keeps that value.
pub open spec fn keeps_known(m: MetaView, m2: MetaView) -> bool {
    &&& m2.file_path == m.file_path
    &&& m2.file_name == m.file_name
    &&& m2.width == m.width
    &&& m2.height == m.height
    &&& m2.preview_offset == m.preview_offset
    &&& m2.preview_length == m.preview_length
    &&& m.camera_make is Some ==> m2.camera_make == m.camera_make
    &&& m.camera_model is Some ==> m2.camera_model == m.camera_model
    &&& m.lens_model is Some ==> m2.lens_model == m.lens_model
    &&& m.iso is Some ==> m2.iso == m.iso
    &&& m.aperture is Some ==> m2.aperture == m.aperture
    &&& m.exposure_time is Some ==> m2.exposure_time == m.exposure_time
    &&& m.focal_length is Some ==> m2.focal_length == m.focal_length
    &&& m.date_time is Some ==> m2.date_time == m.date_time
    &&& m.orientation is Some ==> m2.orientation == m.orientation
}

proof fn lemma_apply_entries_keeps(m: MetaView, d: Seq<u8>, le: bool, ifd: int, k: nat)
    ensures
        keeps_known(m, apply_entries(m, d, le, ifd, k)),
    decreases k,
{
    if k > 0 {
        lemma_apply_entries_keeps(m, d, le, ifd, (k - 1) as nat);
    }
}

proof fn lemma_apply_ifds_keeps(m: MetaView, d: Seq<u8>, le: bool, ifds: Seq<u32>)
    ensures
        keeps_known(m, apply_ifds(m, d, le, ifds)),
    decreases ifds.len(),
{
    if ifds.len() > 0 {
        lemma_apply_ifds_keeps(m, d, le, ifds.drop_last());
        let m1 = apply_ifds(m, d, le, ifds.drop_last());
        let x = ifds.last();
        match spec_read_u16(d, le, x as int) {
            Some(n) => lemma_apply_entries_keeps(m1, d, le, x as int, n as nat),
            None => {},
        }
    }
}

proof fn lemma_entries_preview_off(d: Seq<u8>, le: bool, ifd: int, k: nat)
    ensures
        entries_preview(d, le, ifd, k, false) == (None::<u32>, None::<u32>),
    decreases k,
{
    if k > 0 {
        lemma_entries_preview_off(d, le, ifd, (k - 1) as nat);
    }
}

proof fn lemma_best_preview_off(d: Seq<u8>, le: bool, ifds: Seq<u32>)
    ensures
        best_preview(d, le, ifds, false) == (0u32, 0u32),
    decreases ifds.len(),
{
    if ifds.len() > 0 {
        lemma_best_preview_off(d, le, ifds.drop_last());
        match spec_read_u16(d, le, ifds.last() as int) {
            Some(n) => lemma_entries_preview_off(d, le, ifds.last() as int, n as nat),
            None => {},
        }
    }
}

/// Reading TIFF data never overwrites what is known: the file's name and path,
/// its dimensions and every tag already set keep their values; outside file
/// level the preview is unchanged, and at file level it is only ever replaced
/// by a longer one.
pub proof fn lemma_tiff_parse_keeps_known(m: MetaView, d: Seq<u8>, level: bool)
    ensures
        ({
            let r = tiff_parse(m, d, level);
            &&& keeps_known(m, MetaView { preview_offset: m.preview_offset, preview_length: m.preview_length, ..r })
            &&& r.preview_length >= m.preview_length
            &&& r.preview_length == m.preview_length ==> r.preview_offset == m.preview_offset
            &&& !level ==> keeps_known(m, r)
        }),
{
    match tiff_header(d) {
        None => {},
        Some((le, ifd0)) => {
            let order = tiff_ifd_order(d, le, ifd0);
            lemma_apply_ifds_keeps(m, d, le, order);
            if !level {
                lemma_best_preview_off(d, le, order);
            }
        },
    }
}

/// Whether `a` and `b` agree on the field that the tag `tag` fills (Make,
/// Model, LensModel, Orientation, ExposureTime, FNumber, ISO, FocalLength or
/// DateTimeOriginal); true for any other tag.
pub open spec fn same_tag_field(a: MetaView, b: MetaView, tag: u16) -> bool {
    if tag == 0x010f {
        a.camera_make == b.camera_make
    } else if tag == 0x0110 {
        a.camera_model == b.camera_model
    } else if tag == 0xa434 {
        a.lens_model == b.lens_model
    } else if tag == 0x0112 {
        a.orientation == b.orientation
    } else if tag == 0x829a {
        a.exposure_time == b.exposure_time
    } else if tag == 0x829d {
        a.aperture == b.aperture
    } else if tag == 0x8827 {
        a.iso == b.iso
    } else if tag == 0x920a {
        a.focal_length == b.focal_length
    } else if tag == 0x9003 {
        a.date_time == b.date_time
    } else {
        true
    }
}

/// Whether the field that the tag `tag` fills holds no value in `m`.
pub open spec fn tag_field_unset(m: MetaView, tag: u16) -> bool {
    if tag == 0x010f {
        m.camera_make is None
    } else if tag == 0x0110 {
        m.camera_model is None
    } else if tag == 0xa434 {
        m.lens_model is None
    } else if tag == 0x0112 {
        m.orientation is None
    } else if tag == 0x829a {
        m.exposure_time is None
    } else if tag == 0x829d {
        m.aperture is None
    } else if tag == 0x8827 {
        m.iso is None
    } else if tag == 0x920a {
        m.focal_length is None
    } else if tag == 0x9003 {
        m.date_time is None
    } else {
        false
    }
}

/// The tag of entry `i` of the directory at `ifd`, when it can be read.
pub open spec fn entry_tag_at(d: Seq<u8>, le: bool, ifd: int, i: int) -> Option<u16> {
    spec_read_u16(d, le, ifd + 2 + 12 * i)
}

proof fn lemma_entry_other_tag(m: MetaView, d: Seq<u8>, le: bool, e: int, tag: u16)
    requires
        spec_read_u16(d, le, e) != Some(tag),
    ensures
        same_tag_field(m, apply_entry(m, d, le, e), tag),
{
}

proof fn lemma_entries_before_tag(m: MetaView, d: Seq<u8>, le: bool, ifd: int, k: nat, tag: u16)
    requires
        forall|i: int| 0 <= i < k ==> #[trigger] entry_tag_at(d, le, ifd, i) != Some(tag),
    ensures
        same_tag_field(m, apply_entries(m, d, le, ifd, k), tag),
    decreases k,
{
    if k > 0 {
        lemma_entries_before_tag(m, d, le, ifd, (k - 1) as nat, tag);
        assert(entry_tag_at(d, le, ifd, k - 1) != Some(tag));
        lemma_entry_other_tag(apply_entries(m, d, le, ifd, (k - 1) as nat), d, le, entry_pos(ifd, k - 1), tag);
    }
}

proof fn lemma_keeps_known_trans(a: MetaView, b: MetaView, c: MetaView)
    requires
        keeps_known(a, b),
        keeps_known(b, c),
    ensures
        keeps_known(a, c),
{
}

proof fn lemma_entries_keep_from(m: MetaView, d: Seq<u8>, le: bool, ifd: int, j: nat, k: nat)
    requires
        j <= k,
    ensures
        keeps_known(apply_entries(m, d, le, ifd, j), apply_entries(m, d, le, ifd, k)),
    decreases k,
{
    if j < k {
        lemma_entries_keep_from(m, d, le, ifd, j, (k - 1) as nat);
        let prev = apply_entries(m, d, le, ifd, (k - 1) as nat);
        assert(keeps_known(prev, apply_entry(prev, d, le, entry_pos(ifd, k - 1))));
        lemma_keeps_known_trans(
            apply_entries(m, d, le, ifd, j),
            prev,
            apply_entries(m, d, le, ifd, k),
        );
    }
}

proof fn lemma_ifds_keep_first(m: MetaView, d: Seq<u8>, le: bool, s: Seq<u32>)
    requires
        s.len() >= 1,
    ensures
        keeps_known(apply_ifd(m, d, le, s[0]), apply_ifds(m, d, le, s)),
    decreases s.len(),
{
    if s.len() == 1 {
        assert(s.drop_last() =~= Seq::<u32>::empty());
    } else {
        let p = s.drop_last();
        lemma_ifds_keep_first(m, d, le, p);
        let m1 = apply_ifds(m, d, le, p);
        match spec_read_u16(d, le, s.last() as int) {
            Some(n) => lemma_apply_entries_keeps(m1, d, le, s.last() as int, n as nat),
            None => {},
        }
        lemma_keeps_known_trans(apply_ifd(m, d, le, s[0]), m1, apply_ifds(m, d, le, s));
    }
}

/// Whether `d` starts with a TIFF header of byte order `le` whose first
/// directory is at `ifd0`, not 0.
pub open spec fn tiff_start(d: Seq<u8>, le: bool, ifd0: u32) -> bool {
    &&& d.len() >= 8
    &&& (d[0] == 0x49 && d[1] == 0x49) || (d[0] == 0x4d && d[1] == 0x4d)
    &&& le == (d[0] == 0x49 && d[1] == 0x49)
    &&& spec_read_u16(d, le, 2) == Some(42u16)
    &&& spec_read_u32(d, le, 4) == Some(ifd0)
    &&& ifd0 != 0
}

/// Whether no entry of the directory at `y` has the tag `tag`.
pub open spec fn dir_lacks_tag(d: Seq<u8>, le: bool, y: u32, tag: u16) -> bool {
    match spec_read_u16(d, le, y as int) {
        Some(k) => forall|i: int| 0 <= i < k ==> #[trigger] entry_tag_at(d, le, y as int, i) != Some(tag),
        None => true,
    }
}

proof fn lemma_ifds_lacking(m: MetaView, d: Seq<u8>, le: bool, s: Seq<u32>, tag: u16)
    requires
        forall|u: int| 0 <= u < s.len() ==> dir_lacks_tag(d, le, #[trigger] s[u], tag),
    ensures
        same_tag_field(m, apply_ifds(m, d, le, s), tag),
    decreases s.len(),
{
    if s.len() > 0 {
        let p = s.drop_last();
        assert forall|u: int| 0 <= u < p.len() implies dir_lacks_tag(d, le, #[trigger] p[u], tag) by {
            assert(p[u] == s[u]);
        }
        lemma_ifds_lacking(m, d, le, p, tag);
        let m1 = apply_ifds(m, d, le, p);
        let y = s.last();
        assert(dir_lacks_tag(d, le, s[s.len() - 1], tag));
        match spec_read_u16(d, le, y as int) {
            Some(k) => lemma_entries_before_tag(m1, d, le, y as int, k as nat, tag),
            None => {},
        }
    }
}

proof fn lemma_ifds_keep_from(m: MetaView, d: Seq<u8>, le: bool, s: Seq<u32>, t: int)
    requires
        0 <= t < s.len(),
    ensures
        keeps_known(apply_ifds(m, d, le, s.take(t + 1)), apply_ifds(m, d, le, s)),
    decreases s.len(),
{
    if t == s.len() - 1 {
        assert(s.take(t + 1) =~= s);
    } else {
        let p = s.drop_last();
        lemma_ifds_keep_from(m, d, le, p, t);
        assert(p.take(t + 1) =~= s.take(t + 1));
        let m1 = apply_ifds(m, d, le, p);
        match spec_read_u16(d, le, s.last() as int) {
            Some(n) => lemma_apply_entries_keeps(m1, d, le, s.last() as int, n as nat),
            None => {},
        }
        lemma_keeps_known_trans(apply_ifds(m, d, le, s.take(t + 1)), m1, apply_ifds(m, d, le, s));
    }
}

/// Reading the `t`-th directory of the reading order, `x`, up to its entry
/// `j`: where no directory read before it and no earlier entry of it has the
/// tag `tag`, the tag's field is as in `m` before entry `j`, and what entry
/// `j` gives is kept, but for the preview, by the whole read.
proof fn lemma_tiff_parse_at_entry(
    m: MetaView,
    d: Seq<u8>,
    le: bool,
    ifd0: u32,
    t: int,
    x: u32,
    nx: u16,
    j: int,
    tag: u16,
    level: bool,
)
    requires
        tiff_start(d, le, ifd0),
        0 <= t < tiff_ifd_order(d, le, ifd0).len(),
        tiff_ifd_order(d, le, ifd0)[t] == x,
        forall|u: int| 0 <= u < t ==> dir_lacks_tag(d, le, #[trigger] tiff_ifd_order(d, le, ifd0)[u], tag),
        spec_read_u16(d, le, x as int) == Some(nx),
        0 <= j < nx,
        forall|i: int| 0 <= i < j ==> #[trigger] entry_tag_at(d, le, x as int, i) != Some(tag),
    ensures
        tiff_header(d) == Some((le, ifd0)),
        ({
            let order = tiff_ifd_order(d, le, ifd0);
            let mj = apply_entries(apply_ifds(m, d, le, order.take(t)), d, le, x as int, j as nat);
            let after = apply_entry(mj, d, le, entry_pos(x as int, j));
            let r = tiff_parse(m, d, level);
            &&& same_tag_field(m, mj, tag)
            &&& keeps_known(after, MetaView { preview_offset: after.preview_offset, preview_length: after.preview_length, ..r })
        }),
{
    let order = tiff_ifd_order(d, le, ifd0);
    let pre_dirs = order.take(t);
    assert forall|u: int| 0 <= u < pre_dirs.len() implies dir_lacks_tag(d, le, #[trigger] pre_dirs[u], tag) by {
        assert(pre_dirs[u] == order[u]);
    }
    lemma_ifds_lacking(m, d, le, pre_dirs, tag);
    let pre = apply_ifds(m, d, le, pre_dirs);
    lemma_entries_before_tag(pre, d, le, x as int, j as nat, tag);
    let mj = apply_entries(pre, d, le, x as int, j as nat);
    assert(order.take(t + 1).drop_last() =~= pre_dirs);
    assert(order.take(t + 1).last() == x);
    assert(apply_ifds(m, d, le, order.take(t + 1)) == apply_entries(pre, d, le, x as int, nx as nat));
    assert(apply_entries(pre, d, le, x as int, (j + 1) as nat) == apply_entry(mj, d, le, entry_pos(x as int, j)));
    lemma_entries_keep_from(pre, d, le, x as int, (j + 1) as nat, nx as nat);
    lemma_ifds_keep_from(m, d, le, order, t);
    lemma_keeps_known_trans(
        apply_entries(pre, d, le, x as int, (j + 1) as nat),
        apply_ifds(m, d, le, order.take(t + 1)),
        apply_ifds(m, d, le, order),
    );
}

/// An ASCII tag (Make, Model, LensModel, DateTimeOriginal) fills its field,
/// when unset, with the text of its entry: its `count` bytes (inline when at
/// most 4, else at the offset the entry holds) up to the first NUL, decoded
/// and trimmed. The entry is entry `j` of `x`, the `t`-th directory read (the
/// first directory is read first; see `lemma_first_directory_links_followed`
/// for the directories it links to); no directory read before `x` and no
/// earlier entry of `x` has the tag. Later entries and directories do not
/// replace it.
pub proof fn lemma_tiff_text_tag_read(
    m: MetaView,
    d: Seq<u8>,
    le: bool,
    ifd0: u32,
    t: int,
    x: u32,
    nx: u16,
    j: int,
    tag: u16,
    count: u32,
    vo: int,
    level: bool,
)
    requires
        tag == 0x010f || tag == 0x0110 || tag == 0xa434 || tag == 0x9003,
        tiff_start(d, le, ifd0),
        0 <= t < tiff_ifd_order(d, le, ifd0).len(),
        tiff_ifd_order(d, le, ifd0)[t] == x,
        forall|u: int| 0 <= u < t ==> dir_lacks_tag(d, le, #[trigger] tiff_ifd_order(d, le, ifd0)[u], tag),
        spec_read_u16(d, le, x as int) == Some(nx),
        0 <= j < nx,
        forall|i: int| 0 <= i < j ==> #[trigger] entry_tag_at(d, le, x as int, i) != Some(tag),
        entry_tag_at(d, le, x as int, j) == Some(tag),
        spec_read_u16(d, le, x + 2 + 12 * j + 2) is Some,
        spec_read_u32(d, le, x + 2 + 12 * j + 4) == Some(count),
        count <= 4 ==> vo == x + 2 + 12 * j + 8,
        count > 4 ==> (spec_read_u32(d, le, x + 2 + 12 * j + 8) matches Some(p) && p == vo),
        0 <= vo,
        vo + count <= d.len(),
        tag_field_unset(m, tag),
    ensures
        ({
            let r = tiff_parse(m, d, level);
            let txt = Some(field_text(d.subrange(vo, vo + count)));
            &&& tag == 0x010f ==> r.camera_make == txt
            &&& tag == 0x0110 ==> r.camera_model == txt
            &&& tag == 0xa434 ==> r.lens_model == txt
            &&& tag == 0x9003 ==> r.date_time == txt
        }),
{
    lemma_tiff_parse_at_entry(m, d, le, ifd0, t, x, nx, j, tag, level);
    let e = entry_pos(x as int, j);
    assert(spec_field_offset(d, le, e, 1, count as int) == Some(vo));
    let txt = Some(field_text(d.subrange(vo, vo + count)));
    assert(spec_read_ascii(d, le, e, count as int) == txt);
    let order = tiff_ifd_order(d, le, ifd0);
    let mj = apply_entries(apply_ifds(m, d, le, order.take(t)), d, le, x as int, j as nat);
    let after = apply_entry(mj, d, le, e);
    assert(entry_header(d, le, e) == Some((tag, spec_read_u16(d, le, e + 2).unwrap(), count)));
    assert(tag == 0x010f ==> after.camera_make == txt);
    assert(tag == 0x0110 ==> after.camera_model == txt);
    assert(tag == 0xa434 ==> after.lens_model == txt);
    assert(tag == 0x9003 ==> after.date_time == txt);
}

/// A SHORT or LONG ISO or Orientation entry fills its field, when unset, with
/// the entry's first value: read inline when the values fit in 4 bytes, else
/// at the offset the entry holds, in the file's byte order. The entry is entry
/// `j` of `x`, the `t`-th directory read; no directory read before `x` and no
/// earlier entry of `x` has the tag. Later entries and directories do not
/// replace it.
pub proof fn lemma_tiff_number_tag_read(
    m: MetaView,
    d: Seq<u8>,
    le: bool,
    ifd0: u32,
    t: int,
    x: u32,
    nx: u16,
    j: int,
    tag: u16,
    typ: u16,
    count: u32,
    vo: int,
    v: u32,
    level: bool,
)
    requires
        tag == 0x8827 || tag == 0x0112,
        typ == 3 || typ == 4,
        tiff_start(d, le, ifd0),
        0 <= t < tiff_ifd_order(d, le, ifd0).len(),
        tiff_ifd_order(d, le, ifd0)[t] == x,
        forall|u: int| 0 <= u < t ==> dir_lacks_tag(d, le, #[trigger] tiff_ifd_order(d, le, ifd0)[u], tag),
        spec_read_u16(d, le, x as int) == Some(nx),
        0 <= j < nx,
        forall|i: int| 0 <= i < j ==> #[trigger] entry_tag_at(d, le, x as int, i) != Some(tag),
        entry_tag_at(d, le, x as int, j) == Some(tag),
        spec_read_u16(d, le, x + 2 + 12 * j + 2) == Some(typ),
        spec_read_u32(d, le, x + 2 + 12 * j + 4) == Some(count),
        count >= 1,
        (if typ == 3 { 2 * count } else { 4 * count }) <= 4 ==> vo == x + 2 + 12 * j + 8,
        (if typ == 3 { 2 * count } else { 4 * count }) > 4 ==> (spec_read_u32(
            d,
            le,
            x + 2 + 12 * j + 8,
        ) matches Some(p) && p == vo),
        typ == 3 ==> (spec_read_u16(d, le, vo) matches Some(w) && w == v),
        typ == 4 ==> spec_read_u32(d, le, vo) == Some(v),
        tag_field_unset(m, tag),
    ensures
        tag == 0x8827 ==> tiff_parse(m, d, level).iso == Some(v),
        tag == 0x0112 ==> tiff_parse(m, d, level).orientation == Some(v as u16),
{
    lemma_tiff_parse_at_entry(m, d, le, ifd0, t, x, nx, j, tag, level);
    let e = entry_pos(x as int, j);
    assert(spec_field_offset(d, le, e, numeric_size(typ), count as int) == Some(vo));
    assert(spec_read_numeric(d, le, e, typ, count as int) == Some(v));
}

/// A RATIONAL ExposureTime, FNumber or FocalLength entry with a nonzero
/// denominator fills its field, when unset, with the numerator and
/// denominator stored at the offset the entry holds. The entry is entry `j`
/// of `x`, the `t`-th directory read; no directory read before `x` and no
/// earlier entry of `x` has the tag. Later entries and directories do not
/// replace it.
pub proof fn lemma_tiff_rational_tag_read(
    m: MetaView,
    d: Seq<u8>,
    le: bool,
    ifd0: u32,
    t: int,
    x: u32,
    nx: u16,
    j: int,
    tag: u16,
    count: u32,
    vo: u32,
    num: u32,
    den: u32,
    level: bool,
)
    requires
        tag == 0x829a || tag == 0x829d || tag == 0x920a,
        tiff_start(d, le, ifd0),
        0 <= t < tiff_ifd_order(d, le, ifd0).len(),
        tiff_ifd_order(d, le, ifd0)[t] == x,
        forall|u: int| 0 <= u < t ==> dir_lacks_tag(d, le, #[trigger] tiff_ifd_order(d, le, ifd0)[u], tag),
        spec_read_u16(d, le, x as int) == Some(nx),
        0 <= j < nx,
        forall|i: int| 0 <= i < j ==> #[trigger] entry_tag_at(d, le, x as int, i) != Some(tag),
        entry_tag_at(d, le, x as int, j) == Some(tag),
        spec_read_u16(d, le, x + 2 + 12 * j + 2) is Some,
        spec_read_u32(d, le, x + 2 + 12 * j + 4) == Some(count),
        count >= 1,
        spec_read_u32(d, le, x + 2 + 12 * j + 8) == Some(vo),
        spec_read_u32(d, le, vo as int) == Some(num),
        spec_read_u32(d, le, vo + 4) == Some(den),
        den != 0,
        tag_field_unset(m, tag),
    ensures
        ({
            let r = tiff_parse(m, d, level);
            &&& tag == 0x829a ==> r.exposure_time == Some((num, den))
            &&& tag == 0x829d ==> r.aperture == Some((num, den))
            &&& tag == 0x920a ==> r.focal_length == Some((num, den))
        }),
{
    lemma_tiff_parse_at_entry(m, d, le, ifd0, t, x, nx, j, tag, level);
    let e = entry_pos(x as int, j);
    assert(8 * count > 4);
    assert(spec_field_offset(d, le, e, 8, count as int) == Some(vo as int));
    assert(spec_read_rational(d, le, e, count as int) == Some((num, den)));
}

proof fn lemma_entries_preview_offset(d: Seq<u8>, le: bool, x: int, k: nat, a: int, o: u32)
    requires
        0 <= a < k,
        entry_tag_at(d, le, x, a) == Some(0x0201u16),
        spec_read_u16(d, le, x + 2 + 12 * a + 2) == Some(4u16),
        spec_read_u32(d, le, x + 2 + 12 * a + 4) == Some(1u32),
        spec_read_u32(d, le, x + 2 + 12 * a + 8) == Some(o),
        forall|i: int| a < i < k ==> #[trigger] entry_tag_at(d, le, x, i) != Some(0x0201u16),
    ensures
        entries_preview(d, le, x, k, true).0 == Some(o),
    decreases k,
{
    if a < k - 1 {
        lemma_entries_preview_offset(d, le, x, (k - 1) as nat, a, o);
        assert(entry_tag_at(d, le, x, k - 1) != Some(0x0201u16));
    } else {
        assert(spec_read_numeric(d, le, entry_pos(x, a), 4, 1) == Some(o));
    }
}

proof fn lemma_entries_preview_length(d: Seq<u8>, le: bool, x: int, k: nat, b: int, l: u32)
    requires
        0 <= b < k,
        entry_tag_at(d, le, x, b) == Some(0x0202u16),
        spec_read_u16(d, le, x + 2 + 12 * b + 2) == Some(4u16),
        spec_read_u32(d, le, x + 2 + 12 * b + 4) == Some(1u32),
        spec_read_u32(d, le, x + 2 + 12 * b + 8) == Some(l),
        forall|i: int| b < i < k ==> #[trigger] entry_tag_at(d, le, x, i) != Some(0x0202u16),
    ensures
        entries_preview(d, le, x, k, true).1 == Some(l),
    decreases k,
{
    if b < k - 1 {
        lemma_entries_preview_length(d, le, x, (k - 1) as nat, b, l);
        assert(entry_tag_at(d, le, x, k - 1) != Some(0x0202u16));
    } else {
        assert(spec_read_numeric(d, le, entry_pos(x, b), 4, 1) == Some(l));
    }
}

proof fn lemma_best_preview_at_least(d: Seq<u8>, le: bool, s: Seq<u32>, u: int, o: u32, l: u32)
    requires
        0 <= u < s.len(),
        ifd_preview(d, le, s[u], true) == (Some(o), Some(l)),
    ensures
        best_preview(d, le, s, true).1 >= l,
    decreases s.len(),
{
    if u < s.len() - 1 {
        assert(s.drop_last()[u] == s[u]);
        lemma_best_preview_at_least(d, le, s.drop_last(), u, o, l);
    }
}

/// At file level the largest preview is kept: where a directory read gives a
/// JPEG preview (a LONG JPEGInterchangeFormat offset at entry `a` and a LONG
/// JPEGInterchangeFormatLength at entry `b`, each the last of its tag in the
/// directory), the result's preview is at least that long, and never shorter
/// than the preview known before.
pub proof fn lemma_tiff_preview_kept(
    m: MetaView,
    d: Seq<u8>,
    le: bool,
    ifd0: u32,
    t: int,
    x: u32,
    nx: u16,
    a: int,
    b: int,
    o: u32,
    l: u32,
)
    requires
        tiff_start(d, le, ifd0),
        0 <= t < tiff_ifd_order(d, le, ifd0).len(),
        tiff_ifd_order(d, le, ifd0)[t] == x,
        spec_read_u16(d, le, x as int) == Some(nx),
        0 <= a < nx,
        0 <= b < nx,
        entry_tag_at(d, le, x as int, a) == Some(0x0201u16),
        spec_read_u16(d, le, x + 2 + 12 * a + 2) == Some(4u16),
        spec_read_u32(d, le, x + 2 + 12 * a + 4) == Some(1u32),
        spec_read_u32(d, le, x + 2 + 12 * a + 8) == Some(o),
        forall|i: int| a < i < nx ==> #[trigger] entry_tag_at(d, le, x as int, i) != Some(0x0201u16),
        entry_tag_at(d, le, x as int, b) == Some(0x0202u16),
        spec_read_u16(d, le, x + 2 + 12 * b + 2) == Some(4u16),
        spec_read_u32(d, le, x + 2 + 12 * b + 4) == Some(1u32),
        spec_read_u32(d, le, x + 2 + 12 * b + 8) == Some(l),
        forall|i: int| b < i < nx ==> #[trigger] entry_tag_at(d, le, x as int, i) != Some(0x0202u16),
    ensures
        tiff_parse(m, d, true).preview_length >= l,
        tiff_parse(m, d, true).preview_length >= m.preview_length,
{
    let order = tiff_ifd_order(d, le, ifd0);
    lemma_entries_preview_offset(d, le, x as int, nx as nat, a, o);
    lemma_entries_preview_length(d, le, x as int, nx as nat, b, l);
    assert(ifd_preview(d, le, x, true) == (Some(o), Some(l)));
    lemma_best_preview_at_least(d, le, order, t, o, l);
    lemma_apply_ifds_keeps(m, d, le, order);
}

/// The first directory is the first read.
pub proof fn lemma_first_directory_read_first(d: Seq<u8>, le: bool, ifd0: u32)
    requires
        ifd0 != 0,
    ensures
        tiff_ifd_order(d, le, ifd0).len() >= 1,
        tiff_ifd_order(d, le, ifd0)[0] == ifd0,
{
    assert(seq![ifd0].last() == ifd0);
    assert(seq![ifd0].drop_last() =~= Seq::<u32>::empty());
}

proof fn lemma_walk_covers_queue(d: Seq<u8>, le: bool, queue: Seq<u32>, visited: Set<u32>)
    ensures
        forall|i: int|
            0 <= i < queue.len() && #[trigger] queue[i] != 0 && !visited.contains(queue[i])
                ==> ifd_walk(d, le, queue, visited).contains(queue[i]),
    decreases Set::<u32>::full().difference(visited).len(), queue.len(),
{
    if queue.len() > 0 {
        let x = queue.last();
        let rest = queue.drop_last();
        let w = ifd_walk(d, le, queue, visited);
        if x == 0 || visited.contains(x) {
            lemma_walk_covers_queue(d, le, rest, visited);
            assert forall|i: int|
                0 <= i < queue.len() && #[trigger] queue[i] != 0 && !visited.contains(queue[i])
                    implies w.contains(queue[i]) by {
                assert(i < rest.len());
                assert(rest[i] == queue[i]);
            }
        } else {
            <u32 as vstd::set_lib::FiniteFull>::full_properties();
            Set::<u32>::full().lemma_set_insert_diff_decreases(visited, x);
            let q2 = rest + ifd_links(d, le, x);
            let v2 = visited.insert(x);
            lemma_walk_covers_queue(d, le, q2, v2);
            let tail = ifd_walk(d, le, q2, v2);
            assert(w == seq![x] + tail);
            assert(w[0] == x);
            assert forall|i: int|
                0 <= i < queue.len() && #[trigger] queue[i] != 0 && !visited.contains(queue[i])
                    implies w.contains(queue[i]) by {
                if queue[i] != x {
                    assert(q2[i] == queue[i]);
                    let k = choose|k: int| 0 <= k < tail.len() && tail[k] == queue[i];
                    assert(w[k + 1] == tail[k]);
                }
            }
        }
    }
}

proof fn lemma_entries_links_include(d: Seq<u8>, le: bool, ifd: int, j: int, k: nat)
    requires
        0 <= j < k,
    ensures
        forall|y: u32| #[trigger] entry_links(d, le, entry_pos(ifd, j)).contains(y) ==> entries_links(d, le, ifd, k).contains(y),
    decreases k,
{
    let prev = entries_links(d, le, ifd, (k - 1) as nat);
    let cur = entry_links(d, le, entry_pos(ifd, k - 1));
    assert(entries_links(d, le, ifd, k) == prev + cur);
    if j < k - 1 {
        lemma_entries_links_include(d, le, ifd, j, (k - 1) as nat);
        assert forall|y: u32| #[trigger] entry_links(d, le, entry_pos(ifd, j)).contains(y) implies entries_links(d, le, ifd, k).contains(y) by {
            let i = choose|i: int| 0 <= i < prev.len() && prev[i] == y;
            assert((prev + cur)[i] == y);
        }
    } else {
        assert forall|y: u32| #[trigger] entry_links(d, le, entry_pos(ifd, j)).contains(y) implies entries_links(d, le, ifd, k).contains(y) by {
            let i = choose|i: int| 0 <= i < cur.len() && cur[i] == y;
            assert((prev + cur)[prev.len() + i] == y);
        }
    }
}

proof fn lemma_first_directory_links_read(d: Seq<u8>, le: bool, ifd0: u32, y: u32)
    requires
        ifd0 != 0,
        y != 0,
        ifd_links(d, le, ifd0).contains(y),
    ensures
        tiff_ifd_order(d, le, ifd0).contains(y),
{
    let q0 = seq![ifd0];
    assert(q0.last() == ifd0);
    assert(q0.drop_last() =~= Seq::<u32>::empty());
    let links = ifd_links(d, le, ifd0);
    let v = Set::<u32>::empty().insert(ifd0);
    <u32 as vstd::set_lib::FiniteFull>::full_properties();
    Set::<u32>::full().lemma_set_insert_diff_decreases(Set::<u32>::empty(), ifd0);
    let w = tiff_ifd_order(d, le, ifd0);
    let tail = ifd_walk(d, le, q0.drop_last() + links, v);
    assert(w == seq![ifd0] + tail);
    if y == ifd0 {
        assert(w[0] == y);
    } else {
        assert(q0.drop_last() + links =~= links);
        lemma_walk_covers_queue(d, le, links, v);
        let i = choose|i: int| 0 <= i < links.len() && links[i] == y;
        assert(links[i] != 0 && !v.contains(links[i]));
        let k = choose|k: int| 0 <= k < tail.len() && tail[k] == y;
        assert(w[k + 1] == tail[k]);
    }
}

/// The directories the first directory links to are read: the EXIF
/// directory its ExifIFD entry (a LONG at `j`) points to, and the next
/// directory of the chain, stored after its `n` entries, unless 0.
pub proof fn lemma_first_directory_links_followed(d: Seq<u8>, le: bool, ifd0: u32, n: u16, j: int, x: u32)
    requires
        tiff_start(d, le, ifd0),
        spec_read_u16(d, le, ifd0 as int) == Some(n),
        x != 0,
        ({
            ||| (0 <= j < n && entry_tag_at(d, le, ifd0 as int, j) == Some(0x8769u16) && spec_read_u16(
                d,
                le,
                ifd0 + 2 + 12 * j + 2,
            ) == Some(4u16) && spec_read_u32(d, le, ifd0 + 2 + 12 * j + 4) == Some(1u32)
                && spec_read_u32(d, le, ifd0 + 2 + 12 * j + 8) == Some(x))
            ||| spec_read_u32(d, le, ifd0 + 2 + 12 * n) == Some(x)
        }),
    ensures
        tiff_header(d) == Some((le, ifd0)),
        tiff_ifd_order(d, le, ifd0).contains(x),
{
    let links = ifd_links(d, le, ifd0);
    let nl = next_link(d, le, ifd0 as int, n as nat);
    let el = entries_links(d, le, ifd0 as int, n as nat);
    assert(links == nl + el);
    if spec_read_u32(d, le, ifd0 + 2 + 12 * n) == Some(x) {
        assert(nl == seq![x]);
        assert(links[0] == x);
    } else {
        let e = entry_pos(ifd0 as int, j);
        assert(spec_read_numeric(d, le, e, 4, 1) == Some(x));
        assert(entry_links(d, le, e) == seq![x]);
        assert(entry_links(d, le, e)[0] == x);
        lemma_entries_links_include(d, le, ifd0 as int, j, n as nat);
        assert(entry_links(d, le, e).contains(x));
        assert(el.contains(x));
        let i = choose|i: int| 0 <= i < el.len() && el[i] == x;
        assert(links[nl.len() + i] == x);
    }
    lemma_first_directory_links_read(d, le, ifd0, x);
}

proof fn lemma_ifd_walk_distinct(d: Seq<u8>, le: bool, queue: Seq<u32>, visited: Set<u32>)
    ensures
        ({
            let w = ifd_walk(d, le, queue, visited);
            &&& forall|i: int, j: int| 0 <= i < j < w.len() ==> w[i] != w[j]
            &&& forall|i: int| 0 <= i < w.len() ==> w[i] != 0 && !visited.contains(#[trigger] w[i])
        }),
    decreases Set::<u32>::full().difference(visited).len(), queue.len(),
{
    if queue.len() > 0 {
        let x = queue.last();
        let rest = queue.drop_last();
        if x == 0 || visited.contains(x) {
            lemma_ifd_walk_distinct(d, le, rest, visited);
            assert(ifd_walk(d, le, queue, visited) == ifd_walk(d, le, rest, visited));
        } else {
            <u32 as vstd::set_lib::FiniteFull>::full_properties();
            Set::<u32>::full().lemma_set_insert_diff_decreases(visited, x);
            let v2 = visited.insert(x);
            lemma_ifd_walk_distinct(d, le, rest + ifd_links(d, le, x), v2);
            let tail = ifd_walk(d, le, rest + ifd_links(d, le, x), v2);
            let w = seq![x] + tail;
            assert(w == ifd_walk(d, le, queue, visited));
            assert forall|i: int| 0 <= i < w.len() implies w[i] != 0 && !visited.contains(
                #[trigger] w[i],
            ) by {
                if i > 0 {
                    assert(w[i] == tail[i - 1]);
                    assert(!v2.contains(tail[i - 1]));
                }
            }
            assert forall|i: int, j: int| 0 <= i < j < w.len() implies w[i] != w[j] by {
                assert(w[j] == tail[j - 1]);
                if i > 0 {
                    assert(w[i] == tail[i - 1]);
                } else {
                    assert(!v2.contains(tail[j - 1]));
                }
            }
        }
    }
}

/// Every directory is read at most once, and offset 0 never: the reading order
/// holds no offset twice and no 0, so cycles of directory links end.
pub proof fn lemma_directories_read_once(d: Seq<u8>, le: bool, ifd0: u32)
    ensures
        ({
            let w = tiff_ifd_order(d, le, ifd0);
            &&& forall|i: int, j: int| 0 <= i < j < w.len() ==> w[i] != w[j]
            &&& forall|i: int| 0 <= i < w.len() ==> w[i] != 0
        }),
{
    lemma_ifd_walk_distinct(d, le, seq![ifd0], Set::empty());
    let w = tiff_ifd_order(d, le, ifd0);
    assert forall|i: int| 0 <= i < w.len() implies w[i] != 0 by {
        assert(!Set::<u32>::empty().contains(w[i]));
    }
}

} // verus!
