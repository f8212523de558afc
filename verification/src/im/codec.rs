//! Reading and writing images as PNG, which the `image` crate does.

use super::image::{Format, Image, ImageModel};
use vstd::prelude::*;

verus! {

/// The error of the `image` crate.
#[verifier::external_type_specification]
#[verifier::external_body]
pub struct ExImageError(image::ImageError);

/// The png image error.
#[derive(Debug)]
pub enum Error {
    /// Error while working png data.
    Image(image::ImageError),
    /// A format is not supported.
    UnsupportedFormat,
}

/// What a decoder hands out: width, height and samples of an image in one
/// of the formats of this library, or the notice that it is in none of them.
enum Raster {
    Gray(u32, u32, Vec<u8>),
    Rgb(u32, u32, Vec<u8>),
    Rgba(u32, u32, Vec<u8>),
    Other,
}

impl Raster {
    /// The number of samples of a pixel, width, height and samples; all
    /// zero and empty for an image in another format.
    spec fn shape(self) -> (int, u32, u32, Seq<u8>) {
        match self {
            Raster::Gray(width, height, samples) => (1, width, height, samples@),
            Raster::Rgb(width, height, samples) => (3, width, height, samples@),
            Raster::Rgba(width, height, samples) => (4, width, height, samples@),
            Raster::Other => (0, 0, 0, Seq::empty()),
        }
    }
}

/// The image that the PNG decoder of the `image` crate makes of `data`: the
/// number of samples of a pixel, width, height and samples; `None` where
/// the decoder fails. An image with other samples than 8-bit grey, RGB or
/// RGBA is given with all numbers zero.
pub uninterp spec fn png_decoded(data: Seq<u8>) -> Option<(int, u32, u32, Seq<u8>)>;

/// The PNG file that the encoder of the `image` crate writes for an image
/// of `channels` samples a pixel; `None` where the encoder fails.
pub uninterp spec fn png_encoded(samples: Seq<u8>, width: u32, height: u32, channels: int) -> Option<
    Seq<u8>,
>;

/// `PngDecoder::new` and `DynamicImage::from_decoder`: the image that the
/// bytes encode. An image buffer of the `image` crate holds at least as many
/// samples as its size asks for.
#[verifier::external_body]
fn decode(data: &[u8]) -> (r: Result<Raster, image::ImageError>)
    ensures
        match r {
            Ok(raster) => {
                &&& png_decoded(data@) == Some(raster.shape())
                &&& raster.shape().3.len() >= raster.shape().1 * raster.shape().2
                    * raster.shape().0
            },
            Err(_) => png_decoded(data@).is_none(),
        },
{
    let decoder = image::codecs::png::PngDecoder::new(data)?;
    Ok(match image::DynamicImage::from_decoder(decoder)? {
        image::DynamicImage::ImageLuma8(im) => Raster::Gray(im.width(), im.height(), im.into_raw()),
        image::DynamicImage::ImageRgb8(im) => Raster::Rgb(im.width(), im.height(), im.into_raw()),
        image::DynamicImage::ImageRgba8(im) => Raster::Rgba(im.width(), im.height(), im.into_raw()),
        _ => Raster::Other,
    })
}

/// `PngEncoder::new` and `ImageEncoder::write_image`: the PNG file of the
/// samples. The encoder asks for exactly as many samples as the size needs.
#[verifier::external_body]
fn encode(samples: &[u8], width: u32, height: u32, format: Format) -> (r: Result<
    Vec<u8>,
    image::ImageError,
>)
    requires
        samples@.len() == width * height * format.samples(),
    ensures
        match r {
            Ok(png) => png_encoded(samples@, width, height, format.samples()) == Some(png@),
            Err(_) => png_encoded(samples@, width, height, format.samples()).is_none(),
        },
{
    let color = match format {
        Format::Gray => image::ColorType::L8,
        Format::Rgb => image::ColorType::Rgb8,
        Format::Rgba => image::ColorType::Rgba8,
    };
    let mut buf = Vec::with_capacity(256);
    image::ImageEncoder::write_image(image::codecs::png::PngEncoder::new(&mut buf), samples, width, height, color)?;
    Ok(buf)
}

/// The format with the given number of samples a pixel.
pub open spec fn format_of(channels: int) -> Format {
    if channels == 1 {
        Format::Gray
    } else if channels == 3 {
        Format::Rgb
    } else {
        Format::Rgba
    }
}

/// The image that a PNG file holds: what the decoder hands out, as far as
/// the size asks for it; `None` where the decoder fails or the image is in
/// no format of this library.
pub open spec fn decoded(data: Seq<u8>) -> Option<ImageModel> {
    match png_decoded(data) {
        Some((channels, width, height, samples)) => if channels == 0 {
            None
        } else {
            Some(
                ImageModel {
                    format: format_of(channels),
                    width,
                    height,
                    samples: samples.take(width * height * channels),
                },
            )
        },
        None => None,
    }
}

/// `r` is what `decode_png` makes of what the decoder hands out.
pub open spec fn decoded_image(data: Seq<u8>, r: Result<Image, Error>) -> bool {
    match png_decoded(data) {
        None => r is Err && r->Err_0 is Image,
        Some((channels, _, _, _)) => if channels == 0 {
            r is Err && r->Err_0 is UnsupportedFormat
        } else {
            r is Ok && decoded(data) == Some(r->Ok_0@) && r->Ok_0@.wf()
        },
    }
}

/// Decodes the png image from bytes.
///
/// An image of 8-bit grey, RGB or RGBA samples is returned as the decoder
/// made it; any other is refused as unsupported.
pub fn decode_png(data: &[u8]) -> (r: Result<Image, Error>)
    ensures
        decoded_image(data@, r),
{
    let raster = match decode(data) {
        Ok(raster) => raster,
        Err(e) => {
            return Err(Error::Image(e));
        },
    };
    let (format, width, height, samples) = match raster {
        Raster::Gray(width, height, samples) => (Format::Gray, width, height, samples),
        Raster::Rgb(width, height, samples) => (Format::Rgb, width, height, samples),
        Raster::Rgba(width, height, samples) => (Format::Rgba, width, height, samples),
        Raster::Other => {
            return Err(Error::UnsupportedFormat);
        },
    };
    let mut samples = samples;
    let given = samples.len();
    let size = match Image::size_of(width, height, format) {
        Some(size) => size,
        None => given,
    };
    samples.truncate(size);
    match Image::from_raw((width, height), format, samples) {
        Some(im) => Ok(im),
        None => Err(Error::UnsupportedFormat),
    }
}

/// Encodes the png image in a bytes buffer.
pub fn encode_png(im: &Image) -> (r: Result<Vec<u8>, Error>)
    ensures
        match png_encoded(im@.samples, im@.width, im@.height, im@.format.samples()) {
            Some(png) => r is Ok && r->Ok_0@ == png,
            None => r is Err && r->Err_0 is Image,
        },
{
    let (width, height) = im.dimensions();
    match encode(im.as_bytes(), width, height, im.format()) {
        Ok(png) => Ok(png),
        Err(e) => Err(Error::Image(e)),
    }
}

} // verus!
