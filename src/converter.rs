//! Assembling a document from encoded images, all or nothing.
use vstd::prelude::*;

use crate::decode::{decode_rgb8, decoded_of};
use crate::document::{Document, PdfPage, RasterImage};
use crate::error::PdfError;
use crate::files::{collect_image_files, image_order, FolderEntry};
use crate::geometry::{placeable, placement_of, resolve, PdfConfig};

verus! {

/// The encoded image `b` decodes, and the result can be placed under `c`.
pub open spec fn page_ok(c: PdfConfig, b: Seq<u8>) -> bool {
    match decoded_of(b) {
        Some(t) => placeable(c, t.0 as int, t.1 as int),
        None => false,
    }
}

/// `e` is the error that converting the encoded image `b` under `c` ends in.
pub open spec fn fails_with(c: PdfConfig, b: Seq<u8>, e: PdfError) -> bool {
    match decoded_of(b) {
        None => e is Image,
        Some(t) => e == (PdfError::Geometry { width_px: t.0, height_px: t.1 }),
    }
}

/// `pg` holds the decoded image `b` at its placement under `c`.
pub open spec fn page_holds(pg: PdfPage, c: PdfConfig, b: Seq<u8>) -> bool {
    &&& decoded_of(b) == Some((pg.image.width, pg.image.height, pg.image.pixels@))
    &&& pg.placement == placement_of(c, pg.image.width, pg.image.height)
}

/// `doc` holds one page for each of `srcs`, in order.
pub open spec fn document_holds(doc: Document, c: PdfConfig, srcs: Seq<Seq<u8>>) -> bool {
    &&& doc.follows(c)
    &&& doc.pages@.len() == srcs.len()
    &&& forall|i: int| 0 <= i < srcs.len() ==> page_holds(#[trigger] doc.pages@[i], c, srcs[i])
}

/// The outcome of converting the non-empty sequence `srcs` of encoded images
/// under `c`: a document of all of them where every one decodes and can be
/// placed, else the error of the first one that fails.
pub open spec fn conversion_outcome(
    c: PdfConfig,
    srcs: Seq<Seq<u8>>,
    r: Result<Document, PdfError>,
) -> bool {
    &&& r is Ok <==> (forall|i: int| 0 <= i < srcs.len() ==> page_ok(c, #[trigger] srcs[i]))
    &&& r is Ok ==> document_holds(r->Ok_0, c, srcs)
    &&& r is Err ==> exists|k: int|
        0 <= k < srcs.len() && (forall|j: int| 0 <= j < k ==> page_ok(c, #[trigger] srcs[j]))
            && !page_ok(c, #[trigger] srcs[k]) && fails_with(c, srcs[k], r->Err_0)
}

/// The contents of the image entries of a folder listing, in page order.
pub open spec fn folder_sources(entries: Seq<FolderEntry>) -> Seq<Seq<u8>> {
    image_order(entries, entries.len()).map_values(|k: usize| entries[k as int].bytes@)
}

/// Converts images to a document under a fixed configuration.
pub struct PdfConverter {
    config: PdfConfig,
}

impl Default for PdfConverter {
    fn default() -> (r: Self)
        ensures
            r.spec_config().is_valid(),
            r.spec_config().page_width_um == crate::A4_WIDTH_UM,
            r.spec_config().page_height_um == crate::A4_HEIGHT_UM,
            r.spec_config().margin_um == crate::DEFAULT_MARGIN_UM,
            r.spec_config().dpi == crate::DEFAULT_DPI,
            r.spec_config().title@ == "Generated PDF"@,
    {
        PdfConverter::new()
    }
}

impl PdfConverter {
    /// The configuration the converter works with.
    pub closed spec fn spec_config(self) -> PdfConfig {
        self.config
    }

    /// A converter with the default configuration: A4 portrait, 20 mm
    /// margins, 300 dpi.
    pub fn new() -> (r: Self)
        ensures
            r.spec_config().is_valid(),
            r.spec_config().page_width_um == crate::A4_WIDTH_UM,
            r.spec_config().page_height_um == crate::A4_HEIGHT_UM,
            r.spec_config().margin_um == crate::DEFAULT_MARGIN_UM,
            r.spec_config().dpi == crate::DEFAULT_DPI,
            r.spec_config().title@ == "Generated PDF"@,
    {
        PdfConverter { config: PdfConfig::default() }
    }

    /// A converter with the given configuration.
    pub fn with_config(config: PdfConfig) -> (r: Self)
        ensures
            r.spec_config() == config,
    {
        PdfConverter { config }
    }

    /// The current configuration.
    pub fn config(&self) -> (r: &PdfConfig)
        ensures
            *r == self.spec_config(),
    {
        &self.config
    }

    /// Replaces the configuration.
    pub fn set_config(&mut self, config: PdfConfig)
        ensures
            final(self).spec_config() == config,
    {
        self.config = config;
    }

    /// Places a decoded image on a new page at the end of `doc`; fails, and
    /// leaves `doc` as it was, where no placement exists.
    pub fn add_image_page(&self, doc: &mut Document, image: RasterImage) -> (r: Result<
        (),
        PdfError,
    >)
        ensures
            r is Ok <==> placeable(self.spec_config(), image.width as int, image.height as int),
            r is Ok ==> final(doc).pages@ == old(doc).pages@.push(
                PdfPage {
                    placement: placement_of(self.spec_config(), image.width, image.height),
                    image,
                },
            ),
            r is Err ==> r->Err_0 == (PdfError::Geometry {
                width_px: image.width,
                height_px: image.height,
            }),
            r is Err ==> *final(doc) == *old(doc),
            final(doc).title == old(doc).title,
            final(doc).page_width_um == old(doc).page_width_um,
            final(doc).page_height_um == old(doc).page_height_um,
            final(doc).dpi == old(doc).dpi,
    {
        match resolve(image.width, image.height, &self.config) {
            Ok(placement) => {
                doc.add_page(image, placement);
                Ok(())
            },
            Err(e) => Err(e),
        }
    }

    /// Decodes one encoded image and places it on a new page at the end of
    /// `doc`.
    fn add_encoded_image(&self, doc: &mut Document, bytes: &[u8]) -> (r: Result<(), PdfError>)
        ensures
            r is Ok <==> page_ok(self.spec_config(), bytes@),
            r is Ok ==> final(doc).pages@.len() == old(doc).pages@.len() + 1,
            r is Ok ==> final(doc).pages@.drop_last() == old(doc).pages@,
            r is Ok ==> page_holds(final(doc).pages@.last(), self.spec_config(), bytes@),
            r is Err ==> fails_with(self.spec_config(), bytes@, r->Err_0),
            final(doc).title == old(doc).title,
            final(doc).page_width_um == old(doc).page_width_um,
            final(doc).page_height_um == old(doc).page_height_um,
            final(doc).dpi == old(doc).dpi,
    {
        match decode_rgb8(bytes) {
            Ok(image) => {
                let r = self.add_image_page(doc, image);
                proof {
                    if r is Ok {
                        assert(final(doc).pages@.drop_last() =~= old(doc).pages@);
                    }
                }
                r
            },
            Err(e) => Err(PdfError::Image(e)),
        }
    }

    /// Converts the encoded images, in order, into one document, one page
    /// each. An empty list is refused; otherwise the first image that does
    /// not decode or cannot be placed ends the run with its error.
    pub fn convert_images_to_pdf(&self, images: &Vec<Vec<u8>>) -> (r: Result<Document, PdfError>)
        ensures
            images@.len() == 0 ==> r is Err && r->Err_0 is Custom && r->Err_0->Custom_0@
                == "No images provided"@,
            images@.len() > 0 ==> conversion_outcome(
                self.spec_config(),
                images@.map_values(|v: Vec<u8>| v@),
                r,
            ),
    {
        if images.len() == 0 {
            return Err(PdfError::custom("No images provided"));
        }
        let ghost srcs = images@.map_values(|v: Vec<u8>| v@);
        let mut doc = Document::new(&self.config);
        let mut i: usize = 0;
        while i < images.len()
            invariant
                i <= images@.len(),
                srcs == images@.map_values(|v: Vec<u8>| v@),
                doc.follows(self.spec_config()),
                doc.pages@.len() == i,
                forall|j: int| 0 <= j < i ==> page_ok(self.spec_config(), #[trigger] srcs[j]),
                forall|j: int|
                    0 <= j < i ==> page_holds(#[trigger] doc.pages@[j], self.spec_config(), srcs[j]),
            decreases images@.len() - i,
        {
            let ghost before = doc;
            match self.add_encoded_image(&mut doc, images[i].as_slice()) {
                Ok(()) => {
                    proof {
                        assert forall|j: int| 0 <= j < i + 1 implies page_holds(
                            #[trigger] doc.pages@[j],
                            self.spec_config(),
                            srcs[j],
                        ) by {
                            if j < i {
                                assert(doc.pages@[j] == doc.pages@.drop_last()[j]);
                            }
                        }
                    }
                },
                Err(e) => {
                    proof {
                        assert(!page_ok(self.spec_config(), srcs[i as int]));
                    }
                    return Err(e);
                },
            }
            i += 1;
        }
        Ok(doc)
    }

    /// Converts one encoded image into a one-page document.
    pub fn convert_image_to_pdf(&self, image: &Vec<u8>) -> (r: Result<Document, PdfError>)
        ensures
            conversion_outcome(self.spec_config(), seq![image@], r),
    {
        let mut doc = Document::new(&self.config);
        match self.add_encoded_image(&mut doc, image.as_slice()) {
            Ok(()) => {
                proof {
                    assert(doc.pages@[0] == doc.pages@.last());
                }
                Ok(doc)
            },
            Err(e) => {
                proof {
                    assert(seq![image@][0] == image@);
                }
                Err(e)
            },
        }
    }

    /// Converts the image files of a folder listing into one document, in
    /// the order of their names. `None` stands for a folder that does not
    /// exist or is no folder; a listing with no image file is refused.
    pub fn convert_folder_to_pdf(&self, folder: &str, listing: Option<Vec<FolderEntry>>) -> (r:
        Result<Document, PdfError>)
        ensures
            listing is None ==> r is Err && r->Err_0 is InvalidPath && r->Err_0->InvalidPath_0@
                == folder@,
            listing is Some ==> ({
                let entries = listing->Some_0@;
                let order = image_order(entries, entries.len());
                &&& order.len() == 0 ==> r is Err && r->Err_0 is NoImagesFound
                    && r->Err_0->NoImagesFound_0@ == folder@
                &&& order.len() > 0 ==> conversion_outcome(
                    self.spec_config(),
                    folder_sources(entries),
                    r,
                )
            }),
    {
        let entries = match listing {
            Some(entries) => entries,
            None => {
                return Err(PdfError::InvalidPath(folder.to_owned()));
            },
        };
        let order = collect_image_files(&entries);
        if order.len() == 0 {
            return Err(PdfError::NoImagesFound(folder.to_owned()));
        }
        let ghost srcs = folder_sources(entries@);
        let mut doc = Document::new(&self.config);
        let mut i: usize = 0;
        while i < order.len()
            invariant
                i <= order@.len(),
                srcs == folder_sources(entries@),
                listing == Some(entries),
                order@ == image_order(entries@, entries@.len()),
                order@.len() > 0,
                forall|t: int| 0 <= t < order@.len() ==> order@[t] < entries@.len(),
                doc.follows(self.spec_config()),
                doc.pages@.len() == i,
                forall|j: int| 0 <= j < i ==> page_ok(self.spec_config(), #[trigger] srcs[j]),
                forall|j: int|
                    0 <= j < i ==> page_holds(#[trigger] doc.pages@[j], self.spec_config(), srcs[j]),
            decreases order@.len() - i,
        {
            let k = order[i];
            match self.add_encoded_image(&mut doc, entries[k].bytes.as_slice()) {
                Ok(()) => {
                    proof {
                        assert forall|j: int| 0 <= j < i + 1 implies page_holds(
                            #[trigger] doc.pages@[j],
                            self.spec_config(),
                            srcs[j],
                        ) by {
                            if j < i {
                                assert(doc.pages@[j] == doc.pages@.drop_last()[j]);
                            }
                        }
                    }
                },
                Err(e) => {
                    proof {
                        assert(!page_ok(self.spec_config(), srcs[i as int]));
                    }
                    return Err(e);
                },
            }
            i += 1;
        }
        Ok(doc)
    }
}

} // verus!
