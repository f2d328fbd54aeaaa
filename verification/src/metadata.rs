//! The metadata gathered for one image file.
use vstd::prelude::*;

verus! {

/// The metadata gathered for one image file.
///
/// Rational tags (exposure time, f-number, focal length) are kept as the
/// numerator and denominator stored in the file, with a nonzero denominator.
#[derive(Debug, Clone, PartialEq, Eq)]
pub struct RawMetadata {
    pub file_path: String,
    pub file_name: String,
    pub camera_make: Option<String>,
    pub camera_model: Option<String>,
    pub lens_model: Option<String>,
    pub width: Option<u32>,
    pub height: Option<u32>,
    pub iso: Option<u32>,
    pub aperture: Option<(u32, u32)>,
    pub exposure_time: Option<(u32, u32)>,
    pub focal_length: Option<(u32, u32)>,
    pub date_time: Option<String>,
    pub orientation: Option<u16>,
    pub preview_offset: u32,
    pub preview_length: u32,
}

/// The mathematical model of a [`RawMetadata`]: its text fields as character sequences.
pub struct MetaView {
    pub file_path: Seq<char>,
    pub file_name: Seq<char>,
    pub camera_make: Option<Seq<char>>,
    pub camera_model: Option<Seq<char>>,
    pub lens_model: Option<Seq<char>>,
    pub width: Option<u32>,
    pub height: Option<u32>,
    pub iso: Option<u32>,
    pub aperture: Option<(u32, u32)>,
    pub exposure_time: Option<(u32, u32)>,
    pub focal_length: Option<(u32, u32)>,
    pub date_time: Option<Seq<char>>,
    pub orientation: Option<u16>,
    pub preview_offset: u32,
    pub preview_length: u32,
}

/// The text of an optional string.
pub open spec fn opt_text(s: Option<String>) -> Option<Seq<char>> {
    match s {
        Some(t) => Some(t@),
        None => None,
    }
}

impl View for RawMetadata {
    type V = MetaView;

    open spec fn view(&self) -> MetaView {
        MetaView {
            file_path: self.file_path@,
            file_name: self.file_name@,
            camera_make: opt_text(self.camera_make),
            camera_model: opt_text(self.camera_model),
            lens_model: opt_text(self.lens_model),
            width: self.width,
            height: self.height,
            iso: self.iso,
            aperture: self.aperture,
            exposure_time: self.exposure_time,
            focal_length: self.focal_length,
            date_time: opt_text(self.date_time),
            orientation: self.orientation,
            preview_offset: self.preview_offset,
            preview_length: self.preview_length,
        }
    }
}

/// The metadata of a file of which nothing has been read yet.
pub open spec fn empty_meta(file_path: Seq<char>, file_name: Seq<char>) -> MetaView {
    MetaView {
        file_path,
        file_name,
        camera_make: None,
        camera_model: None,
        lens_model: None,
        width: None,
        height: None,
        iso: None,
        aperture: None,
        exposure_time: None,
        focal_length: None,
        date_time: None,
        orientation: None,
        preview_offset: 0,
        preview_length: 0,
    }
}

impl RawMetadata {
    /// Metadata for the file at `file_path`, named `file_name`, with nothing read yet.
    pub fn new(file_path: String, file_name: String) -> (r: Self)
        ensures
            r@ == empty_meta(file_path@, file_name@),
    {
        RawMetadata {
            file_path,
            file_name,
            camera_make: None,
            camera_model: None,
            lens_model: None,
            width: None,
            height: None,
            iso: None,
            aperture: None,
            exposure_time: None,
            focal_length: None,
            date_time: None,
            orientation: None,
            preview_offset: 0,
            preview_length: 0,
        }
    }
}

} // verus!
