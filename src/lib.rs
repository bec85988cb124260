//! In-place redaction effects on row-major RGBA8 pixel buffers: rectangular solid fill and
//! pixelation, brush strokes of stamped discs, and the integer side of a separable blur.

pub mod blocks;
pub mod blur;
pub mod brush;
pub mod geometry;
pub mod laws;
pub mod mask;
pub mod region;

pub use blur::{crop_region, store_region, tap_range};
pub use brush::{brush_pixelate, brush_solid_fill};
pub use geometry::clamp_end;
pub use mask::{build_mask, mask_bounds};
pub use region::{pixelate, solid_fill};
