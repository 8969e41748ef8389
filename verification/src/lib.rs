//! A client library for a remote OCR service: it classifies an input file,
//! builds the request that submits it as a base64 data URI, and renders the
//! multi-page response into markdown, materializing embedded images under
//! one of four modes.  The text handling, request construction and response
//! rendering are verified; base64 and zip encoding come from outside crates
//! behind trusted wrappers, and the HTTP transport, document conversion and
//! file writing live in the surrounding binary.
use vstd::prelude::*;

pub mod text;
pub mod codec;
pub mod request;
pub mod render;
pub mod laws;

verus! {

/// How embedded images from an OCR response are materialized in the output.
#[derive(Clone, Copy, PartialEq, Eq, Structural, Debug)]
pub enum ImageMode {
    /// Drop the images; anchors in the markdown are left untouched.
    Discard,
    /// Decode each image and plan a sibling file in an images directory.
    Separate,
    /// Rewrite each anchor to a self-contained data URI.
    Inline,
    /// Decode each image and bundle everything into one zip archive.
    Archive,
}

} // verus!
