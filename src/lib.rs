//! Converts raster images into a paginated document model, one image per
//! page, each image scaled to fit the page's printable area and centred in it.
//!
//! Lengths are kept in micrometres and the rendering resolution in whole dots
//! per inch, so that every placement is an exact fraction of integers.
use vstd::prelude::*;

pub mod converter;
pub mod decode;
pub mod document;
pub mod error;
pub mod files;
pub mod geometry;

pub use converter::PdfConverter;
pub use document::{Document, PdfPage, RasterImage};
pub use error::PdfError;
pub use files::FolderEntry;
pub use geometry::{resolve, PdfConfig, Placement, Ratio};

verus! {

/// Width of an A4 page in micrometres.
pub const A4_WIDTH_UM: u32 = 210_000;

/// Height of an A4 page in micrometres.
pub const A4_HEIGHT_UM: u32 = 297_000;

/// Default page margin in micrometres.
pub const DEFAULT_MARGIN_UM: u32 = 20_000;

/// Default resolution at which image pixels are converted to lengths.
pub const DEFAULT_DPI: u32 = 300;

/// Micrometres in one inch.
pub const UM_PER_INCH: u64 = 25_400;

} // verus!
