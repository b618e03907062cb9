//! Turning a finished image into the bytes of a PNG file.

use vstd::prelude::*;
use image::codecs::png::PngEncoder;
use image::{ColorType, ImageEncoder, ImageError};

verus! {

/// `image::ImageError`, the error of the `image` crate's encoders. Nothing
/// is known of what it holds.
#[verifier::external_type_specification]
#[verifier::external_body]
pub struct ExImageError(ImageError);

/// Why an image could not be encoded.
#[derive(Clone, Debug, PartialEq, Eq)]
pub enum EncodeError {
    /// The width or the height is more than a PNG file can record.
    TooLarge,
    /// The buffer does not hold one byte for each pixel of the image.
    SizeMismatch,
    /// The encoder refused the image, which it does when the image has no
    /// columns or no rows; the text is its own account of the cause.
    Encoder(String),
}

/// The bytes of the PNG file that the encoder of the `image` crate writes for
/// a greyscale image of `width` by `height` pixels of one byte each, or
/// `None` where it reports an error instead.
pub uninterp spec fn png_encoding(pixels: Seq<u8>, width: u32, height: u32) -> Option<Seq<u8>>;

/// Whether a buffer of `length` bytes holds one byte for each pixel of an
/// image of `bounds.0` by `bounds.1` pixels.
pub open spec fn holds_image(length: nat, bounds: (usize, usize)) -> bool {
    length == bounds.0 * bounds.1
}

/// Whether both the width and the height can be recorded in a PNG file.
pub open spec fn fits_png(bounds: (usize, usize)) -> bool {
    bounds.0 <= u32::MAX && bounds.1 <= u32::MAX
}

/// Whether the image has at least one column and one row.
pub open spec fn has_pixels(bounds: (usize, usize)) -> bool {
    bounds.0 > 0 && bounds.1 > 0
}

/// Runs `image::codecs::png::PngEncoder::write_image`, with the colour type
/// `L8`, on an encoder made by `PngEncoder::new` that writes into memory.
///
/// The encoder panics on a buffer whose length is not `width * height`, which
/// `requires` leaves out. What it writes depends on the pixels and the two
/// dimensions alone, and is given the name `png_encoding`; where it returns
/// an error, `png_encoding` is `None`. Writing into memory cannot fail, so
/// the one error left is the encoder's own refusal of a width or a height of
/// zero, before it writes anything.
#[verifier::external_body]
fn write_png(pixels: &[u8], width: u32, height: u32) -> (result: Result<Vec<u8>, ImageError>)
    requires
        pixels@.len() == width * height,
    ensures
        match result {
            Ok(bytes) => {
                &&& width != 0 && height != 0
                &&& png_encoding(pixels@, width, height) == Some(bytes@)
            },
            Err(_) => {
                &&& width == 0 || height == 0
                &&& png_encoding(pixels@, width, height) is None
            },
        },
{
    let mut bytes: Vec<u8> = Vec::new();
    match PngEncoder::new(&mut bytes).write_image(pixels, width, height, ColorType::L8) {
        Ok(()) => Ok(bytes),
        Err(error) => Err(error),
    }
}

/// The text that `image::ImageError` shows of itself through `Display`.
/// Nothing is claimed of the text.
#[verifier::external_body]
fn error_text(error: &ImageError) -> (text: String) {
    format!("{}", error)
}

/// Encodes a greyscale image of `bounds.0` by `bounds.1` pixels, one byte for
/// each pixel and row after row, as a PNG file.
///
/// It succeeds on every image that has pixels, whose bounds a PNG file can
/// record and whose buffer holds one byte for each pixel.
pub fn encode_image(pixels: &[u8], bounds: (usize, usize)) -> (result: Result<
    Vec<u8>,
    EncodeError,
>)
    ensures
        match result {
            Ok(bytes) => {
                &&& fits_png(bounds)
                &&& holds_image(pixels@.len(), bounds)
                &&& has_pixels(bounds)
                &&& png_encoding(pixels@, bounds.0 as u32, bounds.1 as u32) == Some(bytes@)
            },
            Err(EncodeError::TooLarge) => !fits_png(bounds),
            Err(EncodeError::SizeMismatch) => {
                &&& fits_png(bounds)
                &&& !holds_image(pixels@.len(), bounds)
            },
            Err(EncodeError::Encoder(_)) => {
                &&& fits_png(bounds)
                &&& holds_image(pixels@.len(), bounds)
                &&& !has_pixels(bounds)
                &&& png_encoding(pixels@, bounds.0 as u32, bounds.1 as u32) is None
            },
        },
        fits_png(bounds) && holds_image(pixels@.len(), bounds) && has_pixels(bounds)
            ==> result is Ok,
{
    if bounds.0 > u32::MAX as usize || bounds.1 > u32::MAX as usize {
        return Err(EncodeError::TooLarge);
    }
    let width: u32 = bounds.0 as u32;
    let height: u32 = bounds.1 as u32;
    assert(width as u64 * height as u64 <= u64::MAX) by (nonlinear_arith)
        requires
            width <= u32::MAX,
            height <= u32::MAX,
    ;
    let expected: u64 = width as u64 * height as u64;
    if pixels.len() as u64 != expected {
        return Err(EncodeError::SizeMismatch);
    }
    match write_png(pixels, width, height) {
        Ok(bytes) => Ok(bytes),
        Err(error) => Err(EncodeError::Encoder(error_text(&error))),
    }
}

} // verus!
