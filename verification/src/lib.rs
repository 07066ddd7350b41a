//! A verified u8 raster pipeline for 2D-Engine: pixel targets, transfer
//! tables, tile binning, strips and the fine compositing stage, with the
//! small vocabulary types the stages share.
pub mod tables;
pub mod pixels;
pub mod fine;
pub mod binning;
pub mod strips;
pub mod decode;
pub mod band;
pub mod pixmap;
pub mod color;
pub mod path;
pub mod render;
pub mod bench;

pub use crate::band::{FineStats, count, render_band, render_solid_paint};
pub use crate::binning::{BinStats, Binner, SurfaceSize, TileBins, TileEntry, TileGeometry};
pub use crate::color::{BlendMode, ColorSpace};
pub use crate::fine::{Simd, SolidPaint};
pub use crate::path::PathVerb;
pub use crate::pixels::{PixelFormat, TargetError, TargetMut, encode_color};
pub use crate::pixmap::Pixmap;
pub use crate::render::{Pipeline, RenderError, RenderStats};
pub use crate::strips::{Strip, StripKind, StripStats, Striper, Strips};
pub use crate::tables::{FineTables, LINEAR_LEVELS, LINEAR_SCALE, LINEAR_SHIFT};
