//! Errors of a conversion run.
use vstd::prelude::*;

verus! {

/// The error that the image decoder reports; carried through unchanged.
#[verifier::external_type_specification]
#[verifier::external_body]
pub struct ExImageError(image::ImageError);

/// The error that the document writer reports; carried through unchanged.
#[verifier::external_type_specification]
#[verifier::external_body]
pub struct ExPrintPdfError(printpdf::Error);

/// A failure of the file system; carried through unchanged.
#[verifier::external_type_specification]
#[verifier::external_body]
pub struct ExIoError(std::io::Error);

/// Everything that can make a conversion run fail. A run is all or nothing:
/// the first error ends it.
#[derive(Debug)]
pub enum PdfError {
    /// Reading or writing a file failed.
    Io(std::io::Error),
    /// An image could not be decoded.
    Image(image::ImageError),
    /// The finished document could not be serialised.
    Pdf(printpdf::Error),
    /// The folder held no file with a recognised image extension.
    NoImagesFound(String),
    /// The input path is missing or is not of the expected kind.
    InvalidPath(String),
    /// No placement exists: an image side is zero pixels, the resolution is
    /// zero, or the margins leave no printable area.
    Geometry { width_px: u32, height_px: u32 },
    /// Any other failure, with a message.
    Custom(String),
}

impl PdfError {
    /// An error that carries only a message.
    pub fn custom(message: &str) -> (r: Self)
        ensures
            r is Custom,
            r->Custom_0@ == message@,
    {
        PdfError::Custom(message.to_owned())
    }
}

} // verus!
