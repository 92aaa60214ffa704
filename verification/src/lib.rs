//! Decoder for a handwritten-notebook container format and converter of its
//! pages into a minimal paginated document.
//!
//! The library is organised leaves-first:
//! - [`text`] holds UTF-8 decoding and unsigned decimal parsing and formatting;
//! - [`metadata`] reads a length-prefixed block of `<key:value>` tags;
//! - [`container`] walks the footer pointer to pages, layers and geometry;
//! - [`rle`] decompresses one layer's bitmap with the vendor run-length codec;
//! - [`color`] maps pixel codes to RGBA colors;
//! - [`canvas`] holds a page raster and composites layers onto it;
//! - [`render`] draws one page's layers onto a white canvas;
//! - [`pdf`] serializes rendered canvases with exact byte bookkeeping;
//! - [`convert`] runs the whole pipeline on one file's bytes.

use vstd::prelude::*;

pub mod canvas;
pub mod color;
pub mod container;
pub mod convert;
pub mod metadata;
pub mod pdf;
pub mod render;
pub mod rle;
pub mod text;

verus! {

/// Fatal per-file failures while reading a notebook container.
///
/// A layer with an unrecognised protocol is skipped, not an error.
#[derive(Clone, Copy, Debug, PartialEq, Eq, Structural)]
pub enum NoteError {
    /// The file is too short to hold the signature or footer pointer.
    TruncatedFile,
    /// A metadata or bitmap block overruns the file, or its text is not UTF-8.
    MalformedBlock,
    /// A required address or numeric field does not parse as an unsigned integer.
    InvalidAddress,
}

} // verus!
