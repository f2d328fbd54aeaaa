use apertin::bytes::{read_u16_be, read_u32_be, read_u64_be};
use apertin::isobmff::parse_isobmff;
use apertin::jpeg::{
    extract_metadata_from_embedded_jpeg, extract_tiff_from_jpeg, find_exif_segment,
    read_embedded_jpeg_meta, scan_for_largest_jpeg, ExifSearch,
};
use apertin::metadata::RawMetadata;
use apertin::png::parse_png_exif;
use apertin::raw::{parse_raw_file, try_parse_raw_file};
use apertin::text::text_of_field;
use apertin::tiff::parse_tiff_bytes;

fn new_meta() -> RawMetadata {
    RawMetadata::new("test.arw".to_string(), "test.arw".to_string())
}

// ---------------------------------------------------------------------------
// EXIF in JPEG, TIFF directories, preview search
// ---------------------------------------------------------------------------

#[test]
fn test_extract_tiff_from_jpeg() {
    let mock_jpeg = [
        0xFF, 0xD8,
        0xFF, 0xE1,
        0x00, 0x0E,
        b'E', b'x', b'i', b'f', 0x00, 0x00,
        b'I', b'I', 0x2A, 0x00, 0x08, 0x00,
        0xFF, 0xD9,
    ];

    let extracted = extract_tiff_from_jpeg(&mock_jpeg);
    assert!(extracted.is_some());
    assert_eq!(extracted.unwrap(), &[b'I', b'I', 0x2A, 0x00, 0x08, 0x00]);
}

#[test]
fn test_parse_tiff_bytes() {
    let mut mock_tiff = vec![
        b'I', b'I', 0x2A, 0x00,
        0x08, 0x00, 0x00, 0x00,
        0x02, 0x00,
    ];

    mock_tiff.extend_from_slice(&[0x0F, 0x01, 0x02, 0x00, 0x05, 0x00, 0x00, 0x00, 0x26, 0x00, 0x00, 0x00]);
    mock_tiff.extend_from_slice(&[0x10, 0x01, 0x02, 0x00, 0x05, 0x00, 0x00, 0x00, 0x2B, 0x00, 0x00, 0x00]);
    mock_tiff.extend_from_slice(&[0x00, 0x00, 0x00, 0x00]);

    mock_tiff.extend_from_slice(b"Sony\0");
    mock_tiff.extend_from_slice(b"A7R3\0");

    let mut meta = RawMetadata::new("test.arw".to_string(), "test.arw".to_string());
    parse_tiff_bytes(&mock_tiff, &mut meta, true);

    assert_eq!(meta.camera_make.as_deref(), Some("Sony"));
    assert_eq!(meta.camera_model.as_deref(), Some("A7R3"));
}

#[test]
fn test_scan_for_jpeg() {
    let mock_data = [
        0x01, 0x02,
        0xFF, 0xD8,
        0xFF, 0xE0, 0x00, 0x02,
        0xFF, 0xD9,
        0x03, 0x04,
    ];

    let result = scan_for_largest_jpeg(&mock_data);
    assert_eq!(result, Some((2, 8)));
}

// ---------------------------------------------------------------------------
// Byte reads
// ---------------------------------------------------------------------------

#[test]
fn big_endian_reads() {
    let d = [0x01, 0x02, 0x03, 0x04, 0x05, 0x06, 0x07, 0x08, 0x09];
    assert_eq!(read_u16_be(&d, 0), Some(0x0102));
    assert_eq!(read_u32_be(&d, 1), Some(0x0203_0405));
    assert_eq!(read_u64_be(&d, 1), Some(0x0203_0405_0607_0809));
    assert_eq!(read_u16_be(&d, 8), None);
    assert_eq!(read_u32_be(&d, 6), None);
    assert_eq!(read_u64_be(&d, 2), None);
    assert_eq!(read_u16_be(&d, usize::MAX), None);
}

// ---------------------------------------------------------------------------
// Text fields
// ---------------------------------------------------------------------------

#[test]
fn text_field_stops_at_nul_and_trims() {
    assert_eq!(text_of_field(b"  Canon EOS R5 \0garbage"), "Canon EOS R5");
    assert_eq!(text_of_field(b"\0Nikon"), "");
    assert_eq!(text_of_field(b"\tFUJIFILM\n"), "FUJIFILM");
}

#[test]
fn text_field_replaces_ill_formed_utf8() {
    assert_eq!(text_of_field(&[b'A', 0xFF, b'B']), "A\u{FFFD}B");
    assert_eq!(text_of_field("Léica".as_bytes()), "Léica");
}

// ---------------------------------------------------------------------------
// TIFF
// ---------------------------------------------------------------------------

/// A little-endian TIFF builder: one directory per call of `ifd`.
struct Tiff {
    data: Vec<u8>,
}

impl Tiff {
    fn new(le: bool, ifd0: u32) -> Tiff {
        let mut data = if le { vec![b'I', b'I', 0x2A, 0x00] } else { vec![b'M', b'M', 0x00, 0x2A] };
        if le {
            data.extend_from_slice(&ifd0.to_le_bytes());
        } else {
            data.extend_from_slice(&ifd0.to_be_bytes());
        }
        Tiff { data }
    }

    fn pad_to(&mut self, len: usize) {
        self.data.resize(len, 0);
    }

    /// Writes a little-endian directory at the current end; entries are
    /// (tag, type, count, value/offset), `next` the next directory.
    fn ifd(&mut self, entries: &[(u16, u16, u32, u32)], next: u32) -> u32 {
        let at = self.data.len() as u32;
        self.data.extend_from_slice(&(entries.len() as u16).to_le_bytes());
        for &(tag, typ, count, value) in entries {
            self.data.extend_from_slice(&tag.to_le_bytes());
            self.data.extend_from_slice(&typ.to_le_bytes());
            self.data.extend_from_slice(&count.to_le_bytes());
            self.data.extend_from_slice(&value.to_le_bytes());
        }
        self.data.extend_from_slice(&next.to_le_bytes());
        at
    }
}

#[test]
fn tiff_rejects_bad_headers() {
    let before = new_meta();
    let mut meta = new_meta();
    parse_tiff_bytes(b"II*", &mut meta, true);
    assert_eq!(meta, before);
    parse_tiff_bytes(b"XX*\0\x08\0\0\0\0\0", &mut meta, true);
    assert_eq!(meta, before);
    parse_tiff_bytes(b"II+\0\x08\0\0\0\0\0", &mut meta, true);
    assert_eq!(meta, before);
}

#[test]
fn tiff_reads_numeric_and_rational_tags() {
    let mut t = Tiff::new(true, 8);
    // directory at 8 with 6 entries: 8 + 2 + 72 + 4 = 86; rationals at 100.
    t.ifd(
        &[
            (0x0112, 3, 1, 6),          // orientation SHORT inline
            (0x8827, 3, 1, 400),        // ISO SHORT inline
            (0x829a, 5, 1, 100),        // exposure time RATIONAL at 100
            (0x829d, 5, 1, 108),        // f-number RATIONAL at 108
            (0x920a, 5, 1, 116),        // focal length RATIONAL at 116 (zero denominator)
            (0x9003, 2, 5, 0x3a31_3032), // date inline "2021" is 4 bytes + count 5 -> at offset
        ],
        0,
    );
    t.pad_to(100);
    t.data.extend_from_slice(&1u32.to_le_bytes());
    t.data.extend_from_slice(&250u32.to_le_bytes());
    t.data.extend_from_slice(&28u32.to_le_bytes());
    t.data.extend_from_slice(&10u32.to_le_bytes());
    t.data.extend_from_slice(&50u32.to_le_bytes());
    t.data.extend_from_slice(&0u32.to_le_bytes());
    let mut meta = new_meta();
    parse_tiff_bytes(&t.data, &mut meta, false);
    assert_eq!(meta.orientation, Some(6));
    assert_eq!(meta.iso, Some(400));
    assert_eq!(meta.exposure_time, Some((1, 250)));
    assert_eq!(meta.aperture, Some((28, 10)));
    assert_eq!(meta.focal_length, None);
    // count 5 > 4: the value is at offset 0x3a313032, beyond the data.
    assert_eq!(meta.date_time, None);
}

#[test]
fn tiff_keeps_first_values() {
    let mut t = Tiff::new(true, 8);
    // make "Sony" inline (count 4), then model twice.
    t.ifd(&[(0x010f, 2, 4, u32::from_le_bytes(*b"Sony")), (0x8827, 3, 1, 100), (0x8827, 3, 1, 200)], 0);
    let mut meta = new_meta();
    meta.camera_make = Some("Canon".to_string());
    parse_tiff_bytes(&t.data, &mut meta, true);
    assert_eq!(meta.camera_make.as_deref(), Some("Canon"));
    assert_eq!(meta.iso, Some(100));
    assert_eq!(meta.file_path, "test.arw");
}

#[test]
fn tiff_big_endian() {
    let mut d = vec![b'M', b'M', 0x00, 0x2A, 0, 0, 0, 8];
    d.extend_from_slice(&[0x00, 0x01]);
    d.extend_from_slice(&[0x88, 0x27, 0x00, 0x03, 0, 0, 0, 1, 0x0C, 0x80, 0, 0]);
    d.extend_from_slice(&[0, 0, 0, 0]);
    let mut meta = new_meta();
    parse_tiff_bytes(&d, &mut meta, true);
    assert_eq!(meta.iso, Some(3200));
}

#[test]
fn tiff_follows_exif_and_sub_ifds_and_survives_cycles() {
    let mut t = Tiff::new(true, 8);
    // IFD0 at 8: one entry (Exif IFD -> 26), next -> 8 (a cycle).
    let exif_at = 8 + 2 + 12 + 4;
    t.ifd(&[(0x8769, 4, 1, exif_at)], 8);
    // Exif IFD at 26: SubIFDs (LONG, count 1) -> 44 (inline), ISO 100.
    let sub_at = exif_at + 2 + 24 + 4;
    t.ifd(&[(0x014a, 4, 1, sub_at), (0x8827, 3, 1, 100)], 0);
    // Sub IFD at 56: model "A7" inline.
    t.ifd(&[(0x0110, 2, 3, u32::from_le_bytes([b'A', b'7', 0, 0]))], exif_at);
    let mut meta = new_meta();
    parse_tiff_bytes(&t.data, &mut meta, true);
    assert_eq!(meta.iso, Some(100));
    assert_eq!(meta.camera_model.as_deref(), Some("A7"));
}

#[test]
fn tiff_takes_largest_preview_at_file_level_only() {
    let mut t = Tiff::new(true, 8);
    let second = 8 + 2 + 24 + 4;
    t.ifd(&[(0x0201, 4, 1, 1000), (0x0202, 4, 1, 50)], second);
    t.ifd(&[(0x0201, 4, 1, 2000), (0x0202, 4, 1, 70)], 0);
    let mut meta = new_meta();
    parse_tiff_bytes(&t.data, &mut meta, true);
    assert_eq!((meta.preview_offset, meta.preview_length), (2000, 70));

    let mut small = new_meta();
    parse_tiff_bytes(&t.data, &mut small, false);
    assert_eq!((small.preview_offset, small.preview_length), (0, 0));

    let mut larger_known = new_meta();
    larger_known.preview_offset = 5;
    larger_known.preview_length = 100;
    parse_tiff_bytes(&t.data, &mut larger_known, true);
    assert_eq!((larger_known.preview_offset, larger_known.preview_length), (5, 100));
}

// ---------------------------------------------------------------------------
// JPEG
// ---------------------------------------------------------------------------

#[test]
fn jpeg_without_soi_or_exif() {
    assert_eq!(extract_tiff_from_jpeg(&[0x00, 0xD8, 0xFF, 0xE1, 0, 8]), None);
    assert_eq!(extract_tiff_from_jpeg(&[0xFF, 0xD8, 0xFF]), None);
    // APP0 then end of image.
    let d = [0xFF, 0xD8, 0xFF, 0xE0, 0x00, 0x04, 1, 2, 0xFF, 0xD9, 0, 0];
    assert_eq!(extract_tiff_from_jpeg(&d), None);
    // APP1 that is not EXIF (XMP).
    let d = [0xFF, 0xD8, 0xFF, 0xE1, 0x00, 0x08, b'h', b't', b't', b'p', b':', b'/', 0xFF, 0xD9];
    assert_eq!(find_exif_segment(&d), ExifSearch::Absent);
}

#[test]
fn jpeg_skips_fill_bytes_and_other_segments() {
    let d = [
        0xFF, 0xD8, 0x00, 0xFF, 0xFF, 0xE0, 0x00, 0x03, 0x01, 0xFF, 0xE1, 0x00, 0x0A, b'E', b'x',
        b'i', b'f', 0, 0, 1, 2, 0xFF, 0xD9,
    ];
    assert_eq!(find_exif_segment(&d), ExifSearch::Found(19, 21));
    assert_eq!(&d[13..19], b"Exif\0\0");
    assert_eq!(extract_tiff_from_jpeg(&d), Some(&[1u8, 2][..]));
}

#[test]
fn jpeg_truncated_app1_is_reported() {
    let d = [0xFF, 0xD8, 0xFF, 0xE1, 0x00, 0x01, 0, 0, 0, 0];
    assert_eq!(find_exif_segment(&d), ExifSearch::Truncated);
    let mut meta = new_meta();
    let mut file = vec![0u8; 4];
    file.extend_from_slice(&d);
    assert!(!read_embedded_jpeg_meta(&file, 4, d.len() as u32, &mut meta));
    assert_eq!(meta, new_meta());
}

#[test]
fn embedded_jpeg_exif_fills_missing_tags() {
    let mut exif = vec![0xFF, 0xD8, 0xFF, 0xE1, 0x00, 0x00];
    exif.extend_from_slice(b"Exif\0\0");
    let mut t = Tiff::new(true, 8);
    t.ifd(&[(0x8827, 3, 1, 800)], 0);
    exif.extend_from_slice(&t.data);
    let len = (exif.len() - 4) as u16;
    exif[4..6].copy_from_slice(&len.to_be_bytes());
    exif.extend_from_slice(&[0xFF, 0xD9]);
    let mut file = vec![0xAA; 10];
    file.extend_from_slice(&exif);
    let mut meta = new_meta();
    extract_metadata_from_embedded_jpeg(&file, 10, exif.len() as u32, &mut meta);
    assert_eq!(meta.iso, Some(800));
    // A preview beyond the file, or of length 0, is not read.
    let mut other = new_meta();
    extract_metadata_from_embedded_jpeg(&file, 11, exif.len() as u32, &mut other);
    extract_metadata_from_embedded_jpeg(&file, 10, 0, &mut other);
    assert_eq!(other.iso, None);
}

#[test]
fn scan_picks_the_largest_jpeg() {
    let mut d = vec![0u8; 3];
    d.extend_from_slice(&[0xFF, 0xD8, 0xFF, 0xFF, 0xD9]); // at 3, length 5
    d.extend_from_slice(&[0, 0]);
    d.extend_from_slice(&[0xFF, 0xD8, 0xFF, 1, 2, 3, 4, 0xFF, 0xD9]); // at 10, length 9
    d.extend_from_slice(&[0, 0, 0, 0]);
    assert_eq!(scan_for_largest_jpeg(&d), Some((10, 9)));
    assert_eq!(scan_for_largest_jpeg(&[0xFF, 0xD8, 0xFF]), None);
    assert_eq!(scan_for_largest_jpeg(&[0xFF, 0xD8, 0xFF, 0x00, 0x00, 0x00]), None);
}

#[test]
fn scan_does_not_skip_a_longer_jpeg_after_a_shorter_one() {
    let mut d = vec![0xFF, 0xD8, 0xFF, 0, 0, 0, 0, 0, 0xFF, 0xD9]; // at 0, length 10
    d.extend_from_slice(&[0xFF, 0xD8, 0xFF, 0xD9]); // at 10, length 4
    d.extend_from_slice(&[0xFF, 0xD8, 0xFF]); // at 14, length 15
    d.extend_from_slice(&[0u8; 10]);
    d.extend_from_slice(&[0xFF, 0xD9]);
    assert_eq!(d.len(), 29);
    assert_eq!(scan_for_largest_jpeg(&d), Some((14, 15)));
}

#[test]
fn scan_keeps_the_first_of_equal_lengths() {
    let mut d = vec![0xFF, 0xD8, 0xFF, 1, 0xFF, 0xD9]; // at 0, length 6
    d.extend_from_slice(&[0xFF, 0xD8, 0xFF, 2, 0xFF, 0xD9]); // at 6, length 6
    d.extend_from_slice(&[0, 0, 0, 0]);
    assert_eq!(scan_for_largest_jpeg(&d), Some((0, 6)));
}

#[test]
fn scan_ignores_a_jpeg_nested_in_another() {
    // A thumbnail inside a larger preview ends at the same marker and is shorter.
    let mut d = vec![0xFF, 0xD8, 0xFF, 0xE1, 0xFF, 0xD8, 0xFF, 5, 6, 0xFF, 0xD9];
    d.extend_from_slice(&[0, 0, 0, 0]);
    assert_eq!(scan_for_largest_jpeg(&d), Some((0, 11)));
}

#[test]
fn scan_result_is_a_jpeg() {
    let d = [9, 9, 0xFF, 0xD8, 0xFF, 0x10, 0xFF, 0xD9, 7, 7, 7, 7];
    let (o, l) = scan_for_largest_jpeg(&d).unwrap();
    let (o, l) = (o as usize, l as usize);
    assert_eq!(&d[o..o + 3], &[0xFF, 0xD8, 0xFF]);
    assert_eq!(&d[o + l - 2..o + l], &[0xFF, 0xD9]);
}

// ---------------------------------------------------------------------------
// PNG
// ---------------------------------------------------------------------------

fn png_chunk(kind: &[u8; 4], payload: &[u8]) -> Vec<u8> {
    let mut c = (payload.len() as u32).to_be_bytes().to_vec();
    c.extend_from_slice(kind);
    c.extend_from_slice(payload);
    c.extend_from_slice(&[0, 0, 0, 0]);
    c
}

#[test]
fn png_exif_chunk_is_read() {
    let mut t = Tiff::new(true, 8);
    t.ifd(&[(0x8827, 3, 1, 64)], 0);
    let mut d = vec![0x89, 0x50, 0x4E, 0x47, 0x0D, 0x0A, 0x1A, 0x0A];
    d.extend(png_chunk(b"IHDR", &[0; 13]));
    d.extend(png_chunk(b"eXIf", &t.data));
    d.extend(png_chunk(b"IEND", &[]));
    let mut meta = new_meta();
    parse_png_exif(&d, &mut meta);
    assert_eq!(meta.iso, Some(64));
}

#[test]
fn png_stops_at_iend_and_ignores_non_tiff_exif() {
    let mut t = Tiff::new(true, 8);
    t.ifd(&[(0x8827, 3, 1, 64)], 0);
    let mut d = vec![0x89, 0x50, 0x4E, 0x47, 0x0D, 0x0A, 0x1A, 0x0A];
    d.extend(png_chunk(b"IEND", &[]));
    d.extend(png_chunk(b"eXIf", &t.data));
    let mut meta = new_meta();
    parse_png_exif(&d, &mut meta);
    assert_eq!(meta.iso, None);

    let mut d = vec![0x89, 0x50, 0x4E, 0x47, 0x0D, 0x0A, 0x1A, 0x0A];
    d.extend(png_chunk(b"eXIf", b"not tiff"));
    parse_png_exif(&d, &mut meta);
    assert_eq!(meta, new_meta());
}

// ---------------------------------------------------------------------------
// ISOBMFF (CR3)
// ---------------------------------------------------------------------------

fn bmff_box(kind: &[u8; 4], payload: &[u8]) -> Vec<u8> {
    let mut b = ((payload.len() + 8) as u32).to_be_bytes().to_vec();
    b.extend_from_slice(kind);
    b.extend_from_slice(payload);
    b
}

fn canon_preview_box(jpeg_size: u32, width: u16, height: u16) -> Vec<u8> {
    let mut p = vec![
        0xea, 0xf4, 0x2b, 0x5e, 0x1c, 0x98, 0x4b, 0x88, 0xb9, 0xfb, 0xb7, 0xdc, 0x40, 0x6e, 0x4d,
        0x16,
    ];
    let mut prvw = vec![0u8; 32];
    prvw[8..12].copy_from_slice(&jpeg_size.to_be_bytes());
    prvw[12..16].copy_from_slice(b"PRVW");
    prvw[22..24].copy_from_slice(&width.to_be_bytes());
    prvw[24..26].copy_from_slice(&height.to_be_bytes());
    p.extend(prvw);
    bmff_box(b"uuid", &p)
}

#[test]
fn cr3_preview_and_metadata_boxes() {
    let mut t = Tiff::new(true, 8);
    t.ifd(&[(0x010f, 2, 4, u32::from_le_bytes(*b"Cano"))], 0);
    let mut moov_payload = bmff_box(b"CMT1", &t.data);
    moov_payload.extend(bmff_box(b"trak", &canon_preview_box(12345, 1620, 1080)));
    let mut d = bmff_box(b"ftyp", b"crx ");
    let moov_at = d.len();
    d.extend(bmff_box(b"moov", &moov_payload));
    let mut meta = new_meta();
    parse_isobmff(&d, 0, d.len(), &mut meta);
    assert_eq!(meta.camera_make.as_deref(), Some("Cano"));
    assert_eq!(meta.preview_length, 12345);
    assert_eq!(meta.width, Some(1620));
    assert_eq!(meta.height, Some(1080));
    // uuid box at moov_at + 8 + CMT1 box; preview = payload + 16 + 32.
    let uuid_at = moov_at + 8 + 8 + t.data.len() + 8;
    assert_eq!(meta.preview_offset as usize, uuid_at + 8 + 16 + 32);
}

#[test]
fn cr3_smaller_preview_and_bad_box_types() {
    let d = canon_preview_box(10, 1, 1);
    let mut meta = new_meta();
    meta.preview_length = 20;
    parse_isobmff(&d, 0, d.len(), &mut meta);
    assert_eq!((meta.preview_length, meta.width), (20, None));

    let mut bad = bmff_box(&[0xFF, 0xFE, 0xFD, 0xFC], &[]);
    bad.extend(canon_preview_box(10, 1, 1));
    let mut meta = new_meta();
    parse_isobmff(&bad, 0, bad.len(), &mut meta);
    assert_eq!(meta.preview_length, 0);

    let mut zero = vec![0, 0, 0, 0, b'f', b'r', b'e', b'e'];
    zero.extend(canon_preview_box(10, 1, 1));
    parse_isobmff(&zero, 0, zero.len(), &mut meta);
    assert_eq!(meta.preview_length, 0);
}

#[test]
fn cr3_large_size_box() {
    let inner = canon_preview_box(99, 2, 3);
    let mut d = vec![0, 0, 0, 1];
    d.extend_from_slice(b"moov");
    d.extend_from_slice(&((inner.len() + 16) as u64).to_be_bytes());
    d.extend(inner);
    let mut meta = new_meta();
    parse_isobmff(&d, 0, d.len(), &mut meta);
    assert_eq!(meta.preview_length, 99);
}

// ---------------------------------------------------------------------------
// Whole files
// ---------------------------------------------------------------------------

#[test]
fn raw_file_too_small() {
    let r = parse_raw_file("/a/x.arw", "x.arw", "arw", &[0u8; 15]);
    assert_eq!(r, Err("File is too small to be a valid RAW image".to_string()));
}

#[test]
fn raw_jpeg_file_is_its_own_preview() {
    let mut d = vec![0xFF, 0xD8, 0xFF, 0xE1, 0x00, 0x00];
    d.extend_from_slice(b"Exif\0\0");
    let mut t = Tiff::new(true, 8);
    t.ifd(&[(0x8827, 3, 1, 1600), (0x0201, 4, 1, 7), (0x0202, 4, 1, 9)], 0);
    d.extend_from_slice(&t.data);
    let len = (d.len() - 4) as u16;
    d[4..6].copy_from_slice(&len.to_be_bytes());
    d.extend_from_slice(&[0xFF, 0xD9]);
    let m = parse_raw_file("/p/IMG.JPG", "IMG.JPG", "JPG", &d).unwrap();
    assert_eq!((m.preview_offset, m.preview_length), (0, d.len() as u32));
    assert_eq!(m.iso, Some(1600));
    assert_eq!(m.file_path, "/p/IMG.JPG");
    assert_eq!(m.file_name, "IMG.JPG");
}

#[test]
fn raw_png_file_dimensions() {
    let mut d = vec![0x89, 0x50, 0x4E, 0x47, 0x0D, 0x0A, 0x1A, 0x0A];
    let mut ihdr = vec![0u8; 13];
    ihdr[0..4].copy_from_slice(&640u32.to_be_bytes());
    ihdr[4..8].copy_from_slice(&480u32.to_be_bytes());
    d.extend(png_chunk(b"IHDR", &ihdr));
    d.extend(png_chunk(b"IEND", &[]));
    let m = parse_raw_file("x.bin", "x.bin", "", &d).unwrap();
    assert_eq!((m.width, m.height), (Some(640), Some(480)));
    assert_eq!((m.preview_offset, m.preview_length), (0, d.len() as u32));
}

#[test]
fn raw_raf_header() {
    let mut d = b"FUJIFILMCCD-RAW ".to_vec();
    d.resize(100, 0);
    let jpeg = [0xFF, 0xD8, 0xFF, 0xD9];
    d[84..88].copy_from_slice(&100u32.to_be_bytes());
    d[88..92].copy_from_slice(&(jpeg.len() as u32).to_be_bytes());
    d.extend_from_slice(&jpeg);
    let m = parse_raw_file("a.raf", "a.raf", "raf", &d).unwrap();
    assert_eq!((m.preview_offset, m.preview_length), (100, 4));
}

#[test]
fn raw_tiff_file_falls_back_to_largest_jpeg() {
    let mut t = Tiff::new(true, 8);
    t.ifd(&[(0x0110, 2, 4, u32::from_le_bytes(*b"D850"))], 0);
    let mut d = t.data.clone();
    let at = d.len() as u32;
    d.extend_from_slice(&[0xFF, 0xD8, 0xFF, 0xE0, 0x00, 0x02, 0xFF, 0xD9]);
    d.extend_from_slice(&[0; 8]);
    let m = parse_raw_file("b.nef", "b.nef", "NEF", &d).unwrap();
    assert_eq!(m.camera_model.as_deref(), Some("D850"));
    assert_eq!((m.preview_offset, m.preview_length), (at, 8));
}

#[test]
fn raw_truncated_embedded_segment_is_reported() {
    let d = [0xFF, 0xD8, 0xFF, 0xE1, 0x00, 0x00, 0, 0, 0, 0, 0, 0, 0, 0, 0, 0, 0];
    assert_eq!(try_parse_raw_file("c.jpg", "c.jpg", "jpg", &d), None);
}

#[test]
fn isobmff_walk_stops_where_the_data_ends() {
    // One `free` box of 8 bytes; the range asked for runs far past the data.
    let d = [0, 0, 0, 8, b'f', b'r', b'e', b'e'];
    let mut meta = new_meta();
    parse_isobmff(&d, 0, 1000, &mut meta);
    assert_eq!(meta, new_meta());
    // A large-size box whose 64-bit size lies beyond the data reads as size 0.
    let large = [0, 0, 0, 1, b'm', b'o', b'o', b'v', 0, 0];
    parse_isobmff(&large, 0, 64, &mut meta);
    assert_eq!(meta, new_meta());
}
