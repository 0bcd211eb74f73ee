//! The calls into the `base64` and `png` crates, with the names under which
//! contracts speak of their results.

use vstd::prelude::*;
use base64::Engine;

verus! {

/// The colour types that a decoded PNG frame can have, as the `png` crate
/// reports them.
#[derive(Debug, Clone, Copy, PartialEq, Eq, Structural)]
pub enum PngColour {
    Grayscale,
    Rgb,
    Indexed,
    GrayscaleAlpha,
    Rgba,
}

/// The step of a PNG decode or encode that failed.
#[derive(Debug, Clone, Copy, PartialEq, Eq, Structural)]
pub enum PngStage {
    /// Reading or writing the image header.
    Header,
    /// Reading or writing the image data.
    ImageData,
}

#[verifier::external_type_specification]
#[verifier::external_body]
pub struct ExBase64DecodeError(base64::DecodeError);

#[verifier::external_type_specification]
#[verifier::external_body]
pub struct ExPngDecodingError(png::DecodingError);

#[verifier::external_type_specification]
#[verifier::external_body]
pub struct ExPngEncodingError(png::EncodingError);

/// The first frame of a decoded PNG: its size, its colour type and its 8-bit
/// samples, row-major.
pub struct PngFrame {
    pub width: u32,
    pub height: u32,
    pub colour: PngColour,
    pub samples: Vec<u8>,
}

/// A PNG decode that failed, with the step that failed.
#[derive(Debug)]
pub enum PngDecodeFailure {
    Header(png::DecodingError),
    Frame(png::DecodingError),
}

/// A PNG encode that failed, with the step that failed.
#[derive(Debug)]
pub enum PngEncodeFailure {
    Header(png::EncodingError),
    Data(png::EncodingError),
}

/// The bytes that the `base64` crate's `STANDARD` engine (RFC 4648 alphabet,
/// padding required) decodes the text `text` to, or `None` where it refuses
/// the text.
pub uninterp spec fn base64_standard_decoding(text: Seq<char>) -> Option<Seq<u8>>;

/// What the `png` crate's decoder, with the `EXPAND` and `STRIP_16`
/// transformations, makes of the file `bytes`: the first frame's width,
/// height, output colour type and samples, or the step that failed.
pub uninterp spec fn png_decoding(bytes: Seq<u8>) -> Result<(u32, u32, PngColour, Seq<u8>), PngStage>;

/// The PNG file that the `png` crate's encoder writes for the 8-bit RGB
/// pixels `rgb` of a `width`×`height` image at its `Fast` compression, or the
/// step that failed.
pub uninterp spec fn png_rgb8_encoding(width: u32, height: u32, rgb: Seq<u8>) -> Result<Seq<u8>, PngStage>;

/// Whether the `png` crate's encoder can size the image data of an 8-bit RGB
/// image of `width`×`height` pixels: its row length, `width * 3 + 1`, and its
/// data length, `width * 3 * height`, are computed in `usize` without a
/// check.
pub open spec fn png_rgb8_size_fits(width: u32, height: u32) -> bool {
    &&& width * 3 + 1 <= usize::MAX
    &&& width * height * 3 <= usize::MAX
}

/// `Engine::decode` of the `base64` crate's `STANDARD` engine on the bytes
/// of `text`. Its result is only named (`base64_standard_decoding`), not
/// stated.
#[verifier::external_body]
pub(crate) fn base64_decode_standard(text: &str) -> (r: Result<Vec<u8>, base64::DecodeError>)
    ensures
        match r {
            Ok(v) => base64_standard_decoding(text@) == Some(v@),
            Err(_) => base64_standard_decoding(text@) is None,
        },
{
    base64::engine::general_purpose::STANDARD.decode(text)
}

/// `png::Decoder` over `png_bytes` with the `EXPAND | STRIP_16`
/// transformations: `read_info`, then `next_frame` into a buffer of
/// `output_buffer_size` bytes cut to the frame's `buffer_size`. Its result is
/// only named (`png_decoding`), not stated.
#[verifier::external_body]
pub(crate) fn png_decode_frame(png_bytes: &[u8]) -> (r: Result<PngFrame, PngDecodeFailure>)
    ensures
        match r {
            Ok(f) => png_decoding(png_bytes@) == Ok::<(u32, u32, PngColour, Seq<u8>), PngStage>(
                (f.width, f.height, f.colour, f.samples@),
            ),
            Err(PngDecodeFailure::Header(_)) => png_decoding(png_bytes@) == Err::<
                (u32, u32, PngColour, Seq<u8>),
                PngStage,
            >(PngStage::Header),
            Err(PngDecodeFailure::Frame(_)) => png_decoding(png_bytes@) == Err::<
                (u32, u32, PngColour, Seq<u8>),
                PngStage,
            >(PngStage::ImageData),
        },
{
    let mut decoder = png::Decoder::new(std::io::Cursor::new(png_bytes));
    decoder.set_transformations(png::Transformations::EXPAND | png::Transformations::STRIP_16);
    let mut reader = decoder.read_info().map_err(PngDecodeFailure::Header)?;
    let mut samples = vec![0u8; reader.output_buffer_size()];
    let info = reader.next_frame(&mut samples).map_err(PngDecodeFailure::Frame)?;
    samples.truncate(info.buffer_size());
    let colour = match info.color_type {
        png::ColorType::Grayscale => PngColour::Grayscale,
        png::ColorType::Rgb => PngColour::Rgb,
        png::ColorType::Indexed => PngColour::Indexed,
        png::ColorType::GrayscaleAlpha => PngColour::GrayscaleAlpha,
        png::ColorType::Rgba => PngColour::Rgba,
    };
    Ok(PngFrame { width: info.width, height: info.height, colour, samples })
}

/// `png::Encoder` for a `width`×`height` 8-bit RGB image at `Fast`
/// compression: `write_header`, then `write_image_data(rgb)`; the writer is
/// dropped, which ends the file, before the bytes are handed back. Its result
/// is only named (`png_rgb8_encoding`), not stated. `write_image_data`
/// computes the row and data lengths unchecked, so sizes whose data length
/// does not fit in a `usize` are left out.
#[verifier::external_body]
pub(crate) fn png_encode_rgb8(width: u32, height: u32, rgb: &[u8]) -> (r: Result<Vec<u8>, PngEncodeFailure>)
    requires
        png_rgb8_size_fits(width, height),
    ensures
        match r {
            Ok(v) => png_rgb8_encoding(width, height, rgb@) == Ok::<Seq<u8>, PngStage>(v@),
            Err(PngEncodeFailure::Header(_)) => png_rgb8_encoding(width, height, rgb@) == Err::<Seq<u8>, PngStage>(
                PngStage::Header,
            ),
            Err(PngEncodeFailure::Data(_)) => png_rgb8_encoding(width, height, rgb@) == Err::<Seq<u8>, PngStage>(
                PngStage::ImageData,
            ),
        },
{
    let mut buf = Vec::new();
    {
        let mut encoder = png::Encoder::new(&mut buf, width, height);
        encoder.set_color(png::ColorType::Rgb);
        encoder.set_depth(png::BitDepth::Eight);
        encoder.set_compression(png::Compression::Fast);
        let mut writer = encoder.write_header().map_err(PngEncodeFailure::Header)?;
        writer.write_image_data(rgb).map_err(PngEncodeFailure::Data)?;
    }
    Ok(buf)
}

} // verus!
