//! Quantizes a raster image against a fixed color palette, run-length encodes
//! the resulting tile grid bottom row first, and merges the encoding together
//! with world-law flags and a frozen-tile overlay into a map document that is
//! finally deflate-compressed.

use vstd::prelude::*;

pub mod compose;
pub mod compress;
pub mod img;
pub mod jsondoc;
pub mod palette;
pub mod pipeline;
pub mod quantize;
pub mod rle;

verus! {

/// The errors the pipeline can surface. Every fatal condition of the
/// pipeline is one of these; tolerated conditions (a malformed palette or
/// world-law line) are skipped and never reported.
#[derive(Debug)]
pub enum MapError {
    /// The palette file yielded no usable entry, so no nearest-color query
    /// can ever be answered.
    EmptyPalette,
    /// A pixel color could not be resolved back to a palette id.
    ColorNotFound,
    /// A resolved tile id is missing from the known tile id list.
    IdNotKnown,
}

impl MapError {
    /// A human-readable description, naming the failing stage.
    pub fn describe(&self) -> (r: &'static str)
        ensures
            *self is EmptyPalette ==> r@ == "palette is empty"@,
            *self is ColorNotFound ==> r@ == "color not found in mapping"@,
            *self is IdNotKnown ==> r@ == "tile id not in known tile map"@,
    {
        match self {
            MapError::EmptyPalette => "palette is empty",
            MapError::ColorNotFound => "color not found in mapping",
            MapError::IdNotKnown => "tile id not in known tile map",
        }
    }
}

} // verus!
