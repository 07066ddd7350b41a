//! Colour vocabulary shared by the stages: how a source meets its
//! destination, and which primaries a colour is expressed in.
use vstd::prelude::*;

verus! {

/// How a source is combined with its destination.
///
/// Only source-over exists so far; the type is non-exhaustive so that other
/// modes can be added without breaking callers, and nothing accepts a mode it
/// cannot execute.
#[derive(Debug, Clone, Copy, PartialEq, Eq, Hash, Structural)]
#[non_exhaustive]
pub enum BlendMode {
    /// Source over destination — the ordinary painter's model.
    SrcOver,
}

impl Default for BlendMode {
    fn default() -> (mode: BlendMode)
        ensures
            mode == BlendMode::SrcOver,
    {
        BlendMode::SrcOver
    }
}

/// A set of primaries and a white point.
///
/// The transfer function is not part of this: colours are linear-light, and
/// encoding curves apply only at the edges of the pipeline.
#[derive(Debug, Clone, Copy, PartialEq, Eq, Hash, Structural)]
#[non_exhaustive]
pub enum ColorSpace {
    /// sRGB / Rec.709 primaries, D65.
    Srgb,
    /// Display P3 primaries, D65.
    DisplayP3,
    /// Rec.2020 primaries, D65.
    Rec2020,
}

impl Default for ColorSpace {
    fn default() -> (space: ColorSpace)
        ensures
            space == ColorSpace::Srgb,
    {
        ColorSpace::Srgb
    }
}

} // verus!
