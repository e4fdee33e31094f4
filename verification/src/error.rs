//! Errors reported by palette construction and image packing.

use vstd::prelude::*;

verus! {

/// Why a palette could not be built, or an image could not be packed.
#[derive(Clone, Copy, PartialEq, Eq, Structural, Debug)]
pub enum PaletteError {
    /// A numeric argument was out of range: a saturation outside `[0, 1]`,
    /// or a palette with more entries than the packed form can index.
    InvalidParameter,
    /// A textual palette source was malformed, or held no colour entries.
    ParseError,
    /// A palette source could not be read at all.
    NotFound,
}

} // verus!
