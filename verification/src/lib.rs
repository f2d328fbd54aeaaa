//! Metadata of RAW, JPEG and PNG photos read from their bytes, and the rules
//! by which a folder of photos is scanned, grouped and culled.

pub mod bytes;
pub mod text;
pub mod metadata;
pub mod tiff;
pub mod jpeg;
pub mod png;
pub mod isobmff;
pub mod raw;
pub mod grouping;
pub mod library;
