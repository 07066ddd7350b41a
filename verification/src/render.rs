//! The decisions a CPU render makes around its stages: whether the request
//! can be served at all, and what the render reports afterwards.
use vstd::prelude::*;

use crate::band::FineStats;
use crate::fine::Simd;

verus! {

/// Which precision the fine stage works in.
#[derive(Debug, Clone, Copy, PartialEq, Eq, Hash, Structural)]
#[non_exhaustive]
pub enum Pipeline {
    /// Pick per render; today that always means [`Pipeline::U8`].
    Auto,
    /// 8-bit sRGB storage, linear-light blending.
    U8,
    /// 32-bit float, for wide gamut and heavy compositing. Not built yet.
    F32,
}

impl Default for Pipeline {
    fn default() -> (pipeline: Pipeline)
        ensures
            pipeline == Pipeline::Auto,
    {
        Pipeline::Auto
    }
}

/// Why a render could not be produced.
#[derive(Debug, Clone, Copy, PartialEq, Eq)]
#[non_exhaustive]
pub enum RenderError {
    /// The target is not the size the parameters describe.
    TargetSize { expected: (u32, u32), found: (u32, u32) },
    /// A pipeline this build does not implement yet.
    UnsupportedPipeline(Pipeline),
}

/// Whether this build implements `pipeline`.
pub open spec fn pipeline_supported(pipeline: Pipeline) -> bool {
    pipeline == Pipeline::Auto || pipeline == Pipeline::U8
}

/// The answer to a render request for a surface `expected` (width, height)
/// onto a target of size `found` in `pipeline`: a size mismatch is reported
/// first, then an unimplemented pipeline.
pub open spec fn admission(expected: (u32, u32), found: (u32, u32), pipeline: Pipeline) -> Result<(), RenderError> {
    if found.0 != expected.0 || found.1 != expected.1 {
        Err(RenderError::TargetSize { expected, found })
    } else if !pipeline_supported(pipeline) {
        Err(RenderError::UnsupportedPipeline(pipeline))
    } else {
        Ok(())
    }
}

/// Decides whether a render of a surface `expected` (width, height) onto a
/// target of size `found` can go ahead in `pipeline`.
pub fn admit_render(expected: (u32, u32), found: (u32, u32), pipeline: Pipeline) -> (admitted: Result<(), RenderError>)
    ensures
        admitted == admission(expected, found, pipeline),
{
    if found.0 != expected.0 || found.1 != expected.1 {
        return Err(RenderError::TargetSize { expected, found });
    }
    match pipeline {
        Pipeline::Auto | Pipeline::U8 => Ok(()),
        other => Err(RenderError::UnsupportedPipeline(other)),
    }
}

/// What one render did.
#[derive(Debug, Clone, Copy, PartialEq, Eq, Structural)]
pub struct RenderStats {
    pub draws_resolved: usize,
    pub draws_culled: usize,
    pub draws_skipped: usize,
    pub segments_flattened: usize,
    pub tiles_rasterized: usize,
    pub tiles_from_cache: usize,
    pub alpha_pixels: usize,
    pub solid_pixels: usize,
    pub peak_memory: usize,
    pub simd: Simd,
}

impl Default for RenderStats {
    fn default() -> (stats: RenderStats)
        ensures
            stats == RenderStats::started(Simd::Scalar),
    {
        RenderStats::start(Simd::Scalar)
    }
}

impl RenderStats {
    /// Nothing counted yet, on kernel `simd`.
    pub open spec fn started(simd: Simd) -> RenderStats {
        RenderStats {
            draws_resolved: 0,
            draws_culled: 0,
            draws_skipped: 0,
            segments_flattened: 0,
            tiles_rasterized: 0,
            tiles_from_cache: 0,
            alpha_pixels: 0,
            solid_pixels: 0,
            peak_memory: 0,
            simd,
        }
    }

    /// The counters of a render about to start on kernel `simd`.
    pub fn start(simd: Simd) -> (stats: RenderStats)
        ensures
            stats == RenderStats::started(simd),
    {
        RenderStats {
            draws_resolved: 0,
            draws_culled: 0,
            draws_skipped: 0,
            segments_flattened: 0,
            tiles_rasterized: 0,
            tiles_from_cache: 0,
            alpha_pixels: 0,
            solid_pixels: 0,
            peak_memory: 0,
            simd,
        }
    }

    /// Counts a draw that this build could not honour.
    pub fn skip_draw(&mut self)
        requires
            old(self).draws_skipped < usize::MAX,
        ensures
            *final(self) == (RenderStats { draws_skipped: (old(self).draws_skipped + 1) as usize, ..*old(self) }),
    {
        self.draws_skipped = self.draws_skipped + 1;
    }

    /// Counts the segments a fill flattened to, after clipping.
    pub fn add_segments(&mut self, segments: usize)
        requires
            old(self).segments_flattened + segments <= usize::MAX,
        ensures
            *final(self) == (RenderStats {
                segments_flattened: (old(self).segments_flattened + segments) as usize,
                ..*old(self)
            }),
    {
        self.segments_flattened = self.segments_flattened + segments;
    }

    /// Counts a fill that reached the fine stage: the tiles it was binned
    /// into and the pixels stage 6 stored and blended for it.
    pub fn add_fill(&mut self, tiles: usize, fine: &FineStats)
        requires
            old(self).tiles_rasterized + tiles <= usize::MAX,
            old(self).alpha_pixels + fine.pixels_blended <= usize::MAX,
            old(self).solid_pixels + fine.pixels_stored <= usize::MAX,
            old(self).draws_resolved < usize::MAX,
        ensures
            *final(self) == (RenderStats {
                tiles_rasterized: (old(self).tiles_rasterized + tiles) as usize,
                alpha_pixels: (old(self).alpha_pixels + fine.pixels_blended) as usize,
                solid_pixels: (old(self).solid_pixels + fine.pixels_stored) as usize,
                draws_resolved: (old(self).draws_resolved + 1) as usize,
                ..*old(self)
            }),
    {
        self.tiles_rasterized = self.tiles_rasterized + tiles;
        self.alpha_pixels = self.alpha_pixels + fine.pixels_blended;
        self.solid_pixels = self.solid_pixels + fine.pixels_stored;
        self.draws_resolved = self.draws_resolved + 1;
    }
}

} // verus!
