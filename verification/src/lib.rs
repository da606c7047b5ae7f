//! Content-aware image width reduction (seam carving).
//!
//! The pipeline rebuilds, for every removed column, a per-pixel edge-magnitude
//! field, a bottom-up dynamic-programming cost table, and one top-to-bottom
//! seam, then deletes that seam's samples from the pixel buffer in place.

pub mod carve;
pub mod gradient;
pub mod info;
pub mod pixels;
pub mod seam;
pub mod table;

pub use carve::CarveError;
pub use gradient::GradientField;
pub use info::ImageInfo;
pub use pixels::PixelBuffer;
pub use seam::Path;
pub use table::DPTable;
