use vstd::prelude::*;

verus! {

/// The failure kinds of the spritesheet pipeline. Every stage surfaces its
/// failure immediately; there is no local recovery and no partial output.
#[derive(Clone, Copy, Debug, PartialEq, Eq, Structural)]
pub enum SpritesheetErr {
    /// No file with a recognized image extension was found.
    NoImagesFound,
    /// Resolution grouping could not pick a dominant group (empty input).
    FilterImages,
    /// A decode, encode or write failure at an image boundary.
    ImageSaveError,
    /// The manual row-count input is not a valid unsigned integer.
    ParseError,
}

} // verus!
