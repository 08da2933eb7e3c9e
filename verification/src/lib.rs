//! ISO-BMFF (MP4) container engine: box-tree parsing, timestamp
//! normalisation, and conversion of fragmented MP4 (moof/mdat sequences)
//! into flat, progressively-downloadable MP4.
//!
//! All operations are synchronous byte-buffer-to-byte-buffer
//! transformations; callers supply fully-read input and receive
//! fully-built output.

use vstd::prelude::*;

pub mod boxes;
pub mod bytes;
pub mod codecs;
pub mod defrag;
pub mod reader;
pub mod reset;
pub mod streaming;
pub mod thumbnail;

verus! {

/// Errors raised by parsing and conversion.
#[derive(Debug, Clone, Copy, PartialEq, Eq, Structural)]
pub enum Mp4Error {
    /// A declared box or field extends past the end of the buffer,
    /// or the buffer ends in the middle of a box header.
    TruncatedData,
    /// A box declares a size smaller than its own header.
    MalformedBox,
    /// A box that the operation needs (moov, mdat, mdia, mdhd) is absent.
    MissingRequiredBox,
    /// Defragmentation was attempted on a box tree with no moof.
    NotFragmented,
}

} // verus!
