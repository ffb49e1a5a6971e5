//! Decoding of encoded image files into RGB rasters.
use vstd::prelude::*;

use crate::document::RasterImage;

verus! {

/// What decoding the encoded bytes `b` yields: nothing where they are not an
/// image in a supported format, else its width, height and RGB samples.
pub uninterp spec fn decoded_of(b: Seq<u8>) -> Option<(u32, u32, Seq<u8>)>;

/// Relies on image::load_from_memory, which guesses the format from the
/// bytes and decodes them, followed by DynamicImage::to_rgb8, which flattens
/// the result to 8-bit RGB, three samples per pixel. The outcome depends on
/// the bytes alone.
#[verifier::external_body]
pub(crate) fn decode_rgb8(bytes: &[u8]) -> (r: Result<RasterImage, image::ImageError>)
    ensures
        match decoded_of(bytes@) {
            None => r is Err,
            Some(t) => r is Ok && r->Ok_0.width == t.0 && r->Ok_0.height == t.1
                && r->Ok_0.pixels@ == t.2 && t.2.len() == 3 * t.0 * t.1,
        },
{
    match image::load_from_memory(bytes) {
        Ok(img) => {
            let rgb = img.to_rgb8();
            Ok(RasterImage { width: rgb.width(), height: rgb.height(), pixels: rgb.into_raw() })
        },
        Err(e) => Err(e),
    }
}

} // verus!
