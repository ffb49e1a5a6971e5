//! The in-memory document: an ordered list of pages, one placed image each.
use vstd::prelude::*;

use crate::geometry::{PdfConfig, Placement};

verus! {

/// A decoded raster image: `width * height` pixels of three 8-bit samples
/// (red, green, blue), row by row.
#[derive(Debug, Clone)]
pub struct RasterImage {
    pub width: u32,
    pub height: u32,
    pub pixels: Vec<u8>,
}

/// One page: its image and where the image goes on the page.
#[derive(Debug, Clone)]
pub struct PdfPage {
    pub image: RasterImage,
    pub placement: Placement,
}

/// A document under construction. All pages share the page size; pages are
/// only ever appended.
#[derive(Debug, Clone)]
pub struct Document {
    pub title: String,
    pub page_width_um: u32,
    pub page_height_um: u32,
    /// The resolution at which the images' pixels are given a size.
    pub dpi: u32,
    pub pages: Vec<PdfPage>,
}

impl Document {
    /// The document has the title, page size and resolution of `config`.
    pub open spec fn follows(self, config: PdfConfig) -> bool {
        &&& self.title@ == config.title@
        &&& self.page_width_um == config.page_width_um
        &&& self.page_height_um == config.page_height_um
        &&& self.dpi == config.dpi
    }

    /// An empty document laid out by `config`.
    pub fn new(config: &PdfConfig) -> (r: Document)
        ensures
            r.follows(*config),
            r.pages@.len() == 0,
    {
        Document {
            title: config.title.clone(),
            page_width_um: config.page_width_um,
            page_height_um: config.page_height_um,
            dpi: config.dpi,
            pages: Vec::new(),
        }
    }

    /// Appends one page after the existing ones.
    pub fn add_page(&mut self, image: RasterImage, placement: Placement)
        ensures
            final(self).pages@ == old(self).pages@.push(PdfPage { image, placement }),
            final(self).title == old(self).title,
            final(self).page_width_um == old(self).page_width_um,
            final(self).page_height_um == old(self).page_height_um,
            final(self).dpi == old(self).dpi,
    {
        self.pages.push(PdfPage { image, placement });
    }

    /// Number of pages.
    pub fn page_count(&self) -> (r: usize)
        ensures
            r == self.pages@.len(),
    {
        self.pages.len()
    }
}

} // verus!
