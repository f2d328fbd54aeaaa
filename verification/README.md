# apertin

The metadata engine of a RAW photo culler, verified with Verus.

`src/` is the library. Its functions carry contracts proved by Verus, except
three small wrappers in `text` that call the standard library and whose
contracts are trusted: `decode_lossy` (`String::from_utf8_lossy`), `trim_text`
(`str::trim`) and `is_utf8` (`std::str::from_utf8`), with the name
`utf8_lossy` for what lossy decoding makes of ill-formed UTF-8.

- `bytes`, `text`: reading integers of either byte order, NUL-terminated text fields.
- `tiff`: the TIFF/EXIF directory walk (camera, lens, exposure, ISO, dates, previews).
- `jpeg`: the EXIF segment of a JPEG stream, and the search for the largest embedded JPEG.
- `png`, `isobmff`: PNG `eXIf` chunks; the box tree of Canon CR3 files.
- `raw`: the metadata of a whole file, by kind (JPEG, PNG, CR3, RAF, TIFF-based raw).
- `grouping`: Hamming distance of perceptual hashes and complete-linkage grouping.
- `library`: which files a folder scan picks up, the culling plan, the thumbnail to hash.

`app/` is the desktop program around it: file access, the Tauri commands, the
perceptual hash (floating point), sessions and the system trash.
