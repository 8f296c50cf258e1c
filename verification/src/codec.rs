//! Decoding rasters from encoded image files and encoding them as PNG.

use vstd::prelude::*;
use crate::raster::{pixels_of, rgba_bytes, Raster};

verus! {

/// The error type of the `image` crate, carried through unread.
#[verifier::external_type_specification]
#[verifier::external_body]
pub struct ExImageError(image::ImageError);

/// What `image::load_from_memory` makes of an encoded file, converted to
/// eight-bit RGBA: width, height and the sample bytes, or `None` where the
/// crate rejects the file. The JPEG decoder behind `image` is built with its
/// `platform_independent` feature, which leaves out the code that is chosen
/// by the processor at run time and rounds otherwise, so the decoding of a
/// file is the same on every machine.
pub uninterp spec fn decoded_rgba(encoded: Seq<u8>) -> Option<(u32, u32, Seq<u8>)>;

/// The PNG file that `image`'s PNG encoder writes for eight-bit RGBA sample
/// bytes of the given width and height, or `None` where it refuses them.
pub uninterp spec fn png_encoding(width: u32, height: u32, rgba: Seq<u8>) -> Option<Seq<u8>>;

/// Why an encoded file gave no raster.
#[derive(Clone, Copy, Debug, PartialEq, Eq, Structural)]
pub enum DecodeError {
    /// The decoder rejected the file.
    Rejected,
    /// The decoder handed back a byte count that does not fit the
    /// dimensions it reported.
    Malformed,
}

/// The encoder refused the raster.
#[derive(Clone, Copy, Debug, PartialEq, Eq, Structural)]
pub struct EncodeError;

/// Whether decoded sample bytes fill a grid of the decoded dimensions.
pub open spec fn fills_grid(width: u32, height: u32, rgba: Seq<u8>) -> bool {
    rgba.len() == 4 * (width * height)
}

/// The file decodes to a grid of samples.
pub open spec fn readable(encoded: Seq<u8>) -> bool {
    decoded_rgba(encoded) matches Some((w, h, rgba)) && fills_grid(w, h, rgba)
}

/// `raster` is what the file decodes to.
pub open spec fn decodes_to(encoded: Seq<u8>, raster: Raster) -> bool {
    decoded_rgba(encoded) matches Some((w, h, rgba)) && fills_grid(w, h, rgba) && raster.wf()
        && raster.spec_width() == w && raster.spec_height() == h && raster@ == pixels_of(rgba)
}

/// Decodes an encoded image file into a raster.
pub fn decode(encoded: &Vec<u8>) -> (out: Result<Raster, DecodeError>)
    ensures
        out is Ok <==> readable(encoded@),
        match out {
            Ok(raster) => decodes_to(encoded@, raster),
            Err(DecodeError::Rejected) => decoded_rgba(encoded@) is None,
            Err(DecodeError::Malformed) => decoded_rgba(encoded@) matches Some((w, h, rgba))
                && !fills_grid(w, h, rgba),
        },
{
    match load_rgba(encoded) {
        Err(_) => Err(DecodeError::Rejected),
        Ok((width, height, rgba)) => match Raster::from_rgba(width, height, &rgba) {
            Some(raster) => Ok(raster),
            None => Err(DecodeError::Malformed),
        },
    }
}

/// Encodes a raster as a PNG file.
pub fn encode_png(raster: &Raster) -> (out: Result<Vec<u8>, EncodeError>)
    requires
        raster.wf(),
    ensures
        match png_encoding(raster.spec_width(), raster.spec_height(), rgba_bytes(raster@)) {
            Some(png) => out matches Ok(bytes) && bytes@ == png,
            None => out is Err,
        },
{
    let rgba = raster.to_rgba();
    match write_png(raster.width(), raster.height(), &rgba) {
        Ok(png) => Ok(png),
        Err(_) => Err(EncodeError),
    }
}

/// Calls `image::load_from_memory` and converts the image to eight-bit RGBA
/// with `DynamicImage::into_rgba8`. Trusted: the outcome is the named
/// decoding of the bytes, an error where the crate rejects them. That the
/// decoding depends on the bytes alone rests, for JPEG files, on the
/// `platform_independent` feature of `jpeg-decoder` that this crate's
/// manifest turns on.
#[verifier::external_body]
fn load_rgba(encoded: &Vec<u8>) -> (out: Result<(u32, u32, Vec<u8>), image::ImageError>)
    ensures
        match out {
            Ok((w, h, rgba)) => decoded_rgba(encoded@) == Some((w, h, rgba@)),
            Err(_) => decoded_rgba(encoded@) is None,
        },
{
    let rgba = image::load_from_memory(encoded)?.into_rgba8();
    Ok((rgba.width(), rgba.height(), rgba.into_raw()))
}

/// Calls `image::write_buffer_with_format` for eight-bit RGBA samples and the
/// PNG format, writing into memory. Trusted: the outcome is the named PNG
/// encoding, an error where the encoder refuses. The encoder panics on a
/// byte count other than four per grid position, which `requires` rules out.
#[verifier::external_body]
fn write_png(width: u32, height: u32, rgba: &Vec<u8>) -> (out: Result<Vec<u8>, image::ImageError>)
    requires
        rgba@.len() == 4 * (width * height),
    ensures
        match out {
            Ok(png) => png_encoding(width, height, rgba@) == Some(png@),
            Err(_) => png_encoding(width, height, rgba@) is None,
        },
{
    let mut sink = std::io::Cursor::new(Vec::new());
    image::write_buffer_with_format(
        &mut sink,
        rgba,
        width,
        height,
        image::ColorType::Rgba8,
        image::ImageFormat::Png,
    )?;
    Ok(sink.into_inner())
}

} // verus!
