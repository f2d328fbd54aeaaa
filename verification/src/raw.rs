//! Reading the metadata of one image file from its bytes, by file kind: JPEG,
//! PNG, Canon CR3, Fujifilm RAF, and TIFF-based raw formats.
use vstd::prelude::*;
use vstd::string::StringSliceAdditionalSpecFns;

use crate::bytes::{bytes_at, bytes_match, read_u32_be, spec_read_u32};
use crate::isobmff::{isobmff_boxes, lemma_isobmff_within_data, parse_isobmff};
use crate::jpeg::{
    embedded_jpeg_meta, lemma_embedded_jpeg_keeps_known, find_exif_segment, jpeg_exif, largest_jpeg, read_embedded_jpeg_meta,
    scan_for_largest_jpeg, ExifSearch,
};
use crate::metadata::{empty_meta, MetaView, RawMetadata};
use crate::png::{
    has_tiff_signature, parse_png_exif, png_exif_chunk, png_exif_meta, starts_with_either_tiff_order,
    tiff_signature,
};
use crate::text::{ascii_lower, eq_ignore_ascii_case, matches_lower};
use crate::tiff::{keeps_known, lemma_tiff_parse_keeps_known, parse_tiff_bytes, tiff_parse};

verus! {

/// Previews shorter than this (in bytes) are usually thumbnails; a larger
/// embedded JPEG is then looked for.
pub const THUMBNAIL_SIZE: u32 = 500_000;

/// The smallest file read as an image.
pub const MIN_FILE_SIZE: usize = 16;

pub open spec fn lit_jpg() -> Seq<u8> {
    seq![0x6au8, 0x70, 0x67]
}

pub open spec fn lit_jpeg() -> Seq<u8> {
    seq![0x6au8, 0x70, 0x65, 0x67]
}

pub open spec fn lit_png() -> Seq<u8> {
    seq![0x70u8, 0x6e, 0x67]
}

pub open spec fn lit_cr3() -> Seq<u8> {
    seq![0x63u8, 0x72, 0x33]
}

pub open spec fn lit_raf() -> Seq<u8> {
    seq![0x72u8, 0x61, 0x66]
}

/// The PNG file signature.
pub open spec fn png_signature() -> Seq<u8> {
    seq![0x89u8, 0x50, 0x4e, 0x47, 0x0d, 0x0a, 0x1a, 0x0a]
}

/// The signature of Fujifilm RAF files, "FUJIFILMCCD-RAW".
pub open spec fn raf_signature() -> Seq<u8> {
    seq![0x46u8, 0x55, 0x4a, 0x49, 0x46, 0x49, 0x4c, 0x4d, 0x43, 0x43, 0x44, 0x2d, 0x52, 0x41, 0x57]
}

/// Whether the file, by extension or by its start-of-image marker, is a JPEG.
pub open spec fn is_jpeg_file(ext: Seq<u8>, d: Seq<u8>) -> bool {
    eq_ignore_ascii_case(ext, lit_jpg()) || eq_ignore_ascii_case(ext, lit_jpeg()) || (d.len() >= 3
        && d[0] == 0xff && d[1] == 0xd8 && d[2] == 0xff)
}

/// Whether the file, by extension or by signature, is a PNG.
pub open spec fn is_png_file(ext: Seq<u8>, d: Seq<u8>) -> bool {
    eq_ignore_ascii_case(ext, lit_png()) || bytes_at(d, 0, png_signature())
}

/// Whether the file, by extension or by signature, is a Fujifilm RAF.
pub open spec fn is_raf_file(ext: Seq<u8>, d: Seq<u8>) -> bool {
    eq_ignore_ascii_case(ext, lit_raf()) || bytes_at(d, 0, raf_signature())
}

/// `m` with the given preview.
pub open spec fn with_preview(m: MetaView, offset: u32, length: u32) -> MetaView {
    MetaView { preview_offset: offset, preview_length: length, ..m }
}

/// A JPEG file is its own preview; its EXIF is read.
pub open spec fn jpeg_file_meta(m: MetaView, d: Seq<u8>) -> Option<MetaView> {
    let m1 = with_preview(m, 0, d.len() as u32);
    match jpeg_exif(d) {
        ExifSearch::Truncated => None,
        ExifSearch::Found(s, e) => Some(tiff_parse(m1, d.subrange(s as int, e as int), false)),
        ExifSearch::Absent => Some(m1),
    }
}

/// A PNG file is its own preview; its size comes from the IHDR chunk and its
/// EXIF from the `eXIf` chunk.
pub open spec fn png_file_meta(m: MetaView, d: Seq<u8>) -> MetaView {
    let m1 = with_preview(m, 0, d.len() as u32);
    let m2 = if d.len() >= 24 {
        MetaView { width: spec_read_u32(d, false, 16), height: spec_read_u32(d, false, 20), ..m1 }
    } else {
        m1
    };
    png_exif_meta(m2, d)
}

/// A RAF file's header gives (big-endian, at 76, 80, 84, 88) the offset and
/// length of its TIFF metadata and of its JPEG preview.
pub open spec fn raf_file_meta(m: MetaView, d: Seq<u8>) -> Option<MetaView> {
    if d.len() < 92 {
        Some(m)
    } else {
        let meta_offset = spec_read_u32(d, false, 76).unwrap() as int;
        let meta_len = spec_read_u32(d, false, 80).unwrap() as int;
        let jpeg_offset = spec_read_u32(d, false, 84).unwrap();
        let jpeg_len = spec_read_u32(d, false, 88).unwrap();
        let m1 = with_preview(m, jpeg_offset, jpeg_len);
        let m2 = if meta_offset > 0 && meta_offset + meta_len <= d.len() && tiff_signature(
            d.subrange(meta_offset, meta_offset + meta_len),
        ) {
            tiff_parse(m1, d.subrange(meta_offset, meta_offset + meta_len), false)
        } else {
            m1
        };
        embedded_jpeg_meta(m2, d, jpeg_offset, jpeg_len)
    }
}

/// A TIFF-based raw file is read as TIFF; the EXIF of its preview fills in
/// missing tags.
pub open spec fn tiff_file_meta(m: MetaView, d: Seq<u8>) -> Option<MetaView> {
    let m1 = tiff_parse(m, d, true);
    if m1.preview_length > 0 {
        embedded_jpeg_meta(m1, d, m1.preview_offset, m1.preview_length)
    } else {
        Some(m1)
    }
}

/// A preview below the thumbnail size is replaced by the largest embedded JPEG
/// when that is longer, whose EXIF then fills in missing tags.
pub open spec fn preview_fallback(m: MetaView, d: Seq<u8>) -> Option<MetaView> {
    if m.preview_length < THUMBNAIL_SIZE {
        match largest_jpeg(d) {
            Some((o, l)) => if l > m.preview_length {
                embedded_jpeg_meta(with_preview(m, o, l), d, o, l)
            } else {
                Some(m)
            },
            None => Some(m),
        }
    } else {
        Some(m)
    }
}

/// The metadata read from the file `d` at `path`, named `name`, with extension
/// `ext`: `Err` for a file below 16 bytes; `None` where an embedded JPEG read
/// has an APP1 segment whose declared length is below 2.
pub open spec fn raw_parse(path: Seq<char>, name: Seq<char>, ext: Seq<u8>, d: Seq<u8>) -> Option<
    Result<MetaView, ()>,
> {
    if d.len() < MIN_FILE_SIZE {
        Some(Err(()))
    } else {
        let m = empty_meta(path, name);
        if is_jpeg_file(ext, d) {
            match jpeg_file_meta(m, d) {
                Some(m1) => Some(Ok(m1)),
                None => None,
            }
        } else if is_png_file(ext, d) {
            Some(Ok(png_file_meta(m, d)))
        } else {
            let read = if eq_ignore_ascii_case(ext, lit_cr3()) {
                isobmff_boxes(m, d, 0, d.len() as int)
            } else if is_raf_file(ext, d) {
                raf_file_meta(m, d)
            } else {
                tiff_file_meta(m, d)
            };
            match read {
                Some(m1) => match preview_fallback(m1, d) {
                    Some(m2) => Some(Ok(m2)),
                    None => None,
                },
                None => None,
            }
        }
    }
}

/// Whether `ext`, ignoring ASCII case, is the lower-case literal `lit`.
fn ext_is(ext: &[u8], lit: &[u8]) -> (r: bool)
    ensures
        r == eq_ignore_ascii_case(ext@, lit@),
{
    matches_lower(ext, lit)
}

fn is_jpeg_ext(ext: &[u8]) -> (r: bool)
    ensures
        r == (eq_ignore_ascii_case(ext@, lit_jpg()) || eq_ignore_ascii_case(ext@, lit_jpeg())),
{
    let jpg: [u8; 3] = [0x6a, 0x70, 0x67];
    let jpeg: [u8; 4] = [0x6a, 0x70, 0x65, 0x67];
    assert(jpg@ =~= lit_jpg());
    assert(jpeg@ =~= lit_jpeg());
    ext_is(ext, jpg.as_slice()) || ext_is(ext, jpeg.as_slice())
}

fn is_png(ext: &[u8], data: &[u8]) -> (r: bool)
    ensures
        r == is_png_file(ext@, data@),
{
    let png: [u8; 3] = [0x70, 0x6e, 0x67];
    let sig: [u8; 8] = [0x89, 0x50, 0x4e, 0x47, 0x0d, 0x0a, 0x1a, 0x0a];
    assert(png@ =~= lit_png());
    assert(sig@ =~= png_signature());
    ext_is(ext, png.as_slice()) || bytes_match(data, 0, sig.as_slice())
}

fn is_cr3(ext: &[u8]) -> (r: bool)
    ensures
        r == eq_ignore_ascii_case(ext@, lit_cr3()),
{
    let cr3: [u8; 3] = [0x63, 0x72, 0x33];
    assert(cr3@ =~= lit_cr3());
    ext_is(ext, cr3.as_slice())
}

fn is_raf(ext: &[u8], data: &[u8]) -> (r: bool)
    ensures
        r == is_raf_file(ext@, data@),
{
    let raf: [u8; 3] = [0x72, 0x61, 0x66];
    let sig: [u8; 15] = [
        0x46,
        0x55,
        0x4a,
        0x49,
        0x46,
        0x49,
        0x4c,
        0x4d,
        0x43,
        0x43,
        0x44,
        0x2d,
        0x52,
        0x41,
        0x57,
    ];
    assert(raf@ =~= lit_raf());
    assert(sig@ =~= raf_signature());
    ext_is(ext, raf.as_slice()) || bytes_match(data, 0, sig.as_slice())
}

/// Reads the metadata of an image file from its bytes `data`, given its path,
/// its name and its extension (any case). Returns `None` where an embedded JPEG
/// has an APP1 segment whose declared length is below 2, which ends its EXIF
/// segment before its payload begins.
pub fn try_parse_raw_file(file_path: &str, file_name: &str, extension: &str, data: &[u8]) -> (r:
    Option<Result<RawMetadata, String>>)
    ensures
        match r {
            Some(Ok(m)) => raw_parse(file_path@, file_name@, extension.spec_bytes(), data@) == Some(
                Ok::<MetaView, ()>(m@),
            ),
            Some(Err(e)) => raw_parse(file_path@, file_name@, extension.spec_bytes(), data@)
                == Some(Err::<MetaView, ()>(())) && e@ == "File is too small to be a valid RAW image"@,
            None => raw_parse(file_path@, file_name@, extension.spec_bytes(), data@) is None,
        },
{
    let ghost d = data@;
    let ext = extension.as_bytes();
    if data.len() < MIN_FILE_SIZE {
        return Some(Err("File is too small to be a valid RAW image".to_owned()));
    }
    let mut meta = RawMetadata::new(file_path.to_owned(), file_name.to_owned());
    let ghost m0 = meta@;
    if is_jpeg_ext(ext) || (data[0] == 0xff && data[1] == 0xd8 && data[2] == 0xff) {
        meta.preview_offset = 0;
        meta.preview_length = data.len() as u32;
        assert(meta@ == with_preview(m0, 0, d.len() as u32));
        match find_exif_segment(data) {
            ExifSearch::Found(s, e) => parse_tiff_bytes(&data[s..e], &mut meta, false),
            ExifSearch::Absent => {},
            ExifSearch::Truncated => return None,
        }
        return Some(Ok(meta));
    }
    if is_png(ext, data) {
        meta.preview_offset = 0;
        meta.preview_length = data.len() as u32;
        if data.len() >= 24 {
            meta.width = read_u32_be(data, 16);
            meta.height = read_u32_be(data, 20);
        }
        assert(meta@ == (if d.len() >= 24 {
            MetaView {
                width: spec_read_u32(d, false, 16),
                height: spec_read_u32(d, false, 20),
                ..with_preview(m0, 0, d.len() as u32)
            }
        } else {
            with_preview(m0, 0, d.len() as u32)
        }));
        parse_png_exif(data, &mut meta);
        return Some(Ok(meta));
    }
    if is_cr3(ext) {
        proof {
            lemma_isobmff_within_data(m0, d, 0, d.len() as int);
        }
        parse_isobmff(data, 0, data.len(), &mut meta);
    } else if is_raf(ext, data) {
        if data.len() >= 92 {
            let meta_offset = read_u32_be(data, 76).unwrap() as u64;
            let meta_len = read_u32_be(data, 80).unwrap() as u64;
            let jpeg_offset = read_u32_be(data, 84).unwrap();
            let jpeg_len = read_u32_be(data, 88).unwrap();
            meta.preview_offset = jpeg_offset;
            meta.preview_length = jpeg_len;
            if meta_offset > 0 && meta_offset + meta_len <= data.len() as u64 {
                let meta_slice = &data[meta_offset as usize..(meta_offset + meta_len) as usize];
                if has_tiff_signature(meta_slice) {
                    parse_tiff_bytes(meta_slice, &mut meta, false);
                }
            }
            if !read_embedded_jpeg_meta(data, jpeg_offset, jpeg_len, &mut meta) {
                return None;
            }
        }
    } else {
        parse_tiff_bytes(data, &mut meta, true);
        if meta.preview_length > 0 {
            let off = meta.preview_offset;
            let len = meta.preview_length;
            if !read_embedded_jpeg_meta(data, off, len, &mut meta) {
                return None;
            }
        }
    }
    if meta.preview_length < THUMBNAIL_SIZE {
        if let Some((offset, len)) = scan_for_largest_jpeg(data) {
            if len > meta.preview_length {
                meta.preview_offset = offset;
                meta.preview_length = len;
                if !read_embedded_jpeg_meta(data, offset, len, &mut meta) {
                    return None;
                }
            }
        }
    }
    Some(Ok(meta))
}

/// Parses the metadata of an image file from its bytes `data`, given its path,
/// its name and its extension (any case): JPEG and PNG files are their own
/// preview; CR3 files are read as ISOBMFF, RAF files through their header, and
/// others as TIFF; a preview below the thumbnail size gives way to the largest
/// embedded JPEG. Files below 16 bytes are refused. Files with an embedded JPEG
/// whose APP1 segment declares a length below 2 are left out.
pub fn parse_raw_file(file_path: &str, file_name: &str, extension: &str, data: &[u8]) -> (r: Result<
    RawMetadata,
    String,
>)
    requires
        raw_parse(file_path@, file_name@, extension.spec_bytes(), data@) is Some,
    ensures
        match r {
            Ok(m) => raw_parse(file_path@, file_name@, extension.spec_bytes(), data@) == Some(
                Ok::<MetaView, ()>(m@),
            ),
            Err(e) => raw_parse(file_path@, file_name@, extension.spec_bytes(), data@) == Some(
                Err::<MetaView, ()>(()),
            ) && e@ == "File is too small to be a valid RAW image"@,
        },
{
    match try_parse_raw_file(file_path, file_name, extension, data) {
        Some(r) => r,
        None => {
            assert(false);
            Err("File is too small to be a valid RAW image".to_owned())
        },
    }
}

/// A standalone JPEG or PNG file is its own preview: the preview starts at 0
/// and spans the whole file (its size taken modulo 2^32).
pub proof fn lemma_standalone_image_is_own_preview(
    path: Seq<char>,
    name: Seq<char>,
    ext: Seq<u8>,
    d: Seq<u8>,
)
    requires
        raw_parse(path, name, ext, d) is Some,
        d.len() >= MIN_FILE_SIZE,
        is_jpeg_file(ext, d) || is_png_file(ext, d),
    ensures
        raw_parse(path, name, ext, d) matches Some(Ok(m)) && m.preview_offset == 0
            && m.preview_length == d.len() as u32,
{
    let m = empty_meta(path, name);
    let m1 = with_preview(m, 0, d.len() as u32);
    if is_jpeg_file(ext, d) {
        match jpeg_exif(d) {
            ExifSearch::Found(s, e) => lemma_tiff_parse_keeps_known(
                m1,
                d.subrange(s as int, e as int),
                false,
            ),
            _ => {},
        }
    } else {
        let m2 = if d.len() >= 24 {
            MetaView { width: spec_read_u32(d, false, 16), height: spec_read_u32(d, false, 20), ..m1 }
        } else {
            m1
        };
        match png_exif_chunk(d, 8) {
            Some((s, e)) => lemma_tiff_parse_keeps_known(m2, d.subrange(s, e), false),
            None => {},
        }
    }
}

/// A raw file's preview is never a thumbnail while a larger JPEG is embedded:
/// it is at least as long as the largest JPEG embedded in the first 15 MiB, up
/// to the thumbnail size.
pub proof fn lemma_raw_preview_not_smaller_than_embedded(
    path: Seq<char>,
    name: Seq<char>,
    ext: Seq<u8>,
    d: Seq<u8>,
)
    requires
        raw_parse(path, name, ext, d) matches Some(Ok(_)),
        !is_jpeg_file(ext, d),
        !is_png_file(ext, d),
        largest_jpeg(d) is Some,
    ensures
        raw_parse(path, name, ext, d) matches Some(Ok(m)) && ({
            let l = largest_jpeg(d).unwrap().1;
            m.preview_length >= l || m.preview_length >= THUMBNAIL_SIZE
        }),
{
    let m = empty_meta(path, name);
    let read = if eq_ignore_ascii_case(ext, lit_cr3()) {
        isobmff_boxes(m, d, 0, d.len() as int)
    } else if is_raf_file(ext, d) {
        raf_file_meta(m, d)
    } else {
        tiff_file_meta(m, d)
    };
    let m1 = read.unwrap();
    let (o, l) = largest_jpeg(d).unwrap();
    if m1.preview_length < THUMBNAIL_SIZE && l > m1.preview_length {
        lemma_embedded_jpeg_keeps_known(with_preview(m1, o, l), d, o, l);
    }
}

/// The metadata a Fujifilm RAF file gives before any larger embedded JPEG is
/// looked for: its header preview (offset at 84, length at 88), the TIFF
/// metadata its header points to (offset at 76, length at 80) when that lies
/// in the file and starts with a TIFF signature, then the EXIF of the header
/// preview, found at `s..e` within it, for every tag still unset.
#[verifier::opaque]
pub open spec fn raf_expected(path: Seq<char>, name: Seq<char>, d: Seq<u8>, jo: u32, jl: u32, s: usize, e: usize) -> MetaView {
    let m0 = MetaView { preview_offset: jo, preview_length: jl, ..empty_meta(path, name) };
    let ho = spec_read_u32(d, false, 76).unwrap() as int;
    let hl = spec_read_u32(d, false, 80).unwrap() as int;
    let m1 = if ho > 0 && ho + hl <= d.len() && starts_with_either_tiff_order(d.subrange(ho, ho + hl)) {
        tiff_parse(m0, d.subrange(ho, ho + hl), false)
    } else {
        m0
    };
    tiff_parse(m1, d.subrange(jo as int, jo as int + jl as int).subrange(s as int, e as int), false)
}

proof fn lemma_raf_extension(ext: Seq<u8>, d: Seq<u8>)
    requires
        eq_ignore_ascii_case(ext, lit_raf()),
        d.len() >= 1,
        d[0] == 0x46,
    ensures
        !is_jpeg_file(ext, d),
        !is_png_file(ext, d),
        !eq_ignore_ascii_case(ext, lit_cr3()),
        is_raf_file(ext, d),
{
    assert(ascii_lower(ext[0]) == 0x72);
    assert(!bytes_at(d, 0, png_signature()));
}

proof fn lemma_raf_result(path: Seq<char>, name: Seq<char>, ext: Seq<u8>, d: Seq<u8>, x: MetaView)
    requires
        d.len() >= MIN_FILE_SIZE,
        !is_jpeg_file(ext, d),
        !is_png_file(ext, d),
        !eq_ignore_ascii_case(ext, lit_cr3()),
        is_raf_file(ext, d),
        raf_file_meta(empty_meta(path, name), d) == Some(x),
    ensures
        x.preview_length >= THUMBNAIL_SIZE ==> raw_parse(path, name, ext, d) == Some(Ok::<MetaView, ()>(x)),
        raw_parse(path, name, ext, d) matches Some(Ok(r)) ==> keeps_known(
            x,
            MetaView { preview_offset: x.preview_offset, preview_length: x.preview_length, ..r },
        ),
{
    lemma_fallback_keeps(x, d);
}

proof fn lemma_raf_header_and_exif(path: Seq<char>, name: Seq<char>, d: Seq<u8>, jo: u32, jl: u32, s: usize, e: usize)
    requires
        d.len() >= 92,
        spec_read_u32(d, false, 84) == Some(jo),
        spec_read_u32(d, false, 88) == Some(jl),
        jl > 0,
        jo + jl <= d.len(),
        jpeg_exif(d.subrange(jo as int, jo as int + jl as int)) == ExifSearch::Found(s, e),
    ensures
        raf_file_meta(empty_meta(path, name), d) == Some(raf_expected(path, name, d, jo, jl, s, e)),
        raf_expected(path, name, d, jo, jl, s, e).preview_length == jl,
{
    let m0 = with_preview(empty_meta(path, name), jo, jl);
    let ho = spec_read_u32(d, false, 76).unwrap() as int;
    let hl = spec_read_u32(d, false, 80).unwrap() as int;
    if ho > 0 && ho + hl <= d.len() {
        let hdr = d.subrange(ho, ho + hl);
        assert(tiff_signature(hdr) == starts_with_either_tiff_order(hdr));
        lemma_tiff_parse_keeps_known(m0, hdr, false);
    }
    let m1 = if ho > 0 && ho + hl <= d.len() && starts_with_either_tiff_order(d.subrange(ho, ho + hl)) {
        tiff_parse(m0, d.subrange(ho, ho + hl), false)
    } else {
        m0
    };
    let exif = d.subrange(jo as int, jo as int + jl as int).subrange(s as int, e as int);
    lemma_tiff_parse_keeps_known(m1, exif, false);
    reveal(raf_expected);
}

proof fn lemma_fallback_keeps(x: MetaView, d: Seq<u8>)
    ensures
        x.preview_length >= THUMBNAIL_SIZE ==> preview_fallback(x, d) == Some(x),
        preview_fallback(x, d) matches Some(r) ==> keeps_known(
            x,
            MetaView { preview_offset: x.preview_offset, preview_length: x.preview_length, ..r },
        ),
{
    if x.preview_length < THUMBNAIL_SIZE {
        match largest_jpeg(d) {
            Some((o, l)) => if l > x.preview_length {
                lemma_embedded_jpeg_keeps_known(with_preview(x, o, l), d, o, l);
            },
            None => {},
        }
    }
}

/// A RAF file (extension `raf` in any case, first byte `F` as in its
/// "FUJIFILMCCD-RAW" signature) reads the EXIF of its header preview: where
/// the preview lies in the file and holds an EXIF segment, the result holds every tag that the
/// header's TIFF metadata and then that EXIF give. A preview of thumbnail size
/// or more is kept as it is; a smaller one may give way to a larger embedded
/// JPEG, whose EXIF only fills in tags still unset.
pub proof fn lemma_raf_reads_preview_exif(
    path: Seq<char>,
    name: Seq<char>,
    ext: Seq<u8>,
    d: Seq<u8>,
    jo: u32,
    jl: u32,
    s: usize,
    e: usize,
)
    requires
        eq_ignore_ascii_case(ext, lit_raf()),
        d.len() >= 92,
        d[0] == 0x46,
        spec_read_u32(d, false, 84) == Some(jo),
        spec_read_u32(d, false, 88) == Some(jl),
        jl > 0,
        jo + jl <= d.len(),
        jpeg_exif(d.subrange(jo as int, jo as int + jl as int)) == ExifSearch::Found(s, e),
    ensures
        ({
            let x = raf_expected(path, name, d, jo, jl, s, e);
            &&& jl >= THUMBNAIL_SIZE ==> raw_parse(path, name, ext, d) == Some(Ok::<MetaView, ()>(x))
            &&& raw_parse(path, name, ext, d) matches Some(Ok(r)) ==> keeps_known(
                x,
                MetaView { preview_offset: x.preview_offset, preview_length: x.preview_length, ..r },
            )
        }),
{
    lemma_raf_extension(ext, d);
    lemma_raf_header_and_exif(path, name, d, jo, jl, s, e);
    lemma_raf_result(path, name, ext, d, raf_expected(path, name, d, jo, jl, s, e));
}

} // verus!
