//! Still-image and H.264 codecs, and the pixel buffer that sits between them.
use vstd::prelude::*;
use openh264::formats::YUVSource;

verus! {

/// A decoded picture: 3-channel interleaved 8-bit samples, row by row.
#[derive(Clone, Debug)]
pub struct RgbFrame {
    pub width: u32,
    pub height: u32,
    pub pixels: Vec<u8>,
}

impl RgbFrame {
    /// The samples are exactly three per pixel.
    pub open spec fn wf(&self) -> bool {
        self.pixels@.len() == 3 * (self.width as nat) * (self.height as nat)
    }
}

#[verifier::external_type_specification]
#[verifier::external_body]
pub struct ExEncoder(openh264::encoder::Encoder);

#[verifier::external_type_specification]
#[verifier::external_body]
pub struct ExDecoder(openh264::decoder::Decoder);

#[verifier::external_type_specification]
#[verifier::external_body]
pub struct ExH264Error(openh264::Error);

#[verifier::external_type_specification]
#[verifier::external_body]
pub struct ExImageError(image::ImageError);

/// The width and height of the still image that `data` holds, as the `image`
/// crate decodes it (format found from the content by the built-in
/// signatures), or `None` where it cannot.
pub uninterp spec fn decoded_still_size(data: Seq<u8>) -> Option<(u32, u32)>;

/// Relies on image's `guess_format` (the built-in signatures only),
/// `ImageReader::with_format`, `decode` and `to_rgb8`: with a built-in format
/// no registered hook is consulted, so whether the bytes decode, and to what
/// size, depends on the bytes alone; an RGB buffer holds three samples per
/// pixel.
#[verifier::external_body]
pub fn decode_still(data: &[u8]) -> (r: Result<RgbFrame, image::ImageError>)
    ensures
        match r {
            Ok(f) => f.wf() && decoded_still_size(data@) == Some((f.width, f.height)),
            Err(_) => decoded_still_size(data@) is None,
        },
{
    let format = image::guess_format(data)?;
    let rgb = image::ImageReader::with_format(std::io::Cursor::new(data), format).decode()?.to_rgb8();
    let (width, height) = rgb.dimensions();
    Ok(RgbFrame { width, height, pixels: rgb.into_raw() })
}

/// Relies on openh264's `Encoder::with_api_config` with the bundled library
/// and a target bit rate.
#[verifier::external_body]
pub(crate) fn new_encoder(bitrate_bps: u32) -> (r: Result<openh264::encoder::Encoder, openh264::Error>) {
    let config = openh264::encoder::EncoderConfig::new().bitrate(
        openh264::encoder::BitRate::from_bps(bitrate_bps),
    );
    openh264::encoder::Encoder::with_api_config(openh264::OpenH264API::from_source(), config)
}

/// Relies on openh264's `YUVBuffer::from_rgb8_source` and `Encoder::encode`:
/// the frame is converted to planar form and encoded; the access units that
/// come out are handed back as one byte sequence. Both sides must be even.
#[verifier::external_body]
pub(crate) fn encode_rgb(
    encoder: &mut openh264::encoder::Encoder,
    pixels: &[u8],
    width: u32,
    height: u32,
) -> (r: Result<Vec<u8>, openh264::Error>)
    requires
        pixels@.len() == 3 * (width as nat) * (height as nat),
        width % 2 == 0,
        height % 2 == 0,
        width > 0,
        height > 0,
{
    let rgb = openh264::formats::RgbSliceU8::new(pixels, (width as usize, height as usize));
    let yuv = openh264::formats::YUVBuffer::from_rgb8_source(rgb);
    encoder.encode(&yuv).map(|b| b.to_vec())
}

/// Relies on openh264's `Decoder::new` with the bundled library.
#[verifier::external_body]
pub fn new_decoder() -> (r: Result<openh264::decoder::Decoder, openh264::Error>) {
    openh264::decoder::Decoder::new()
}

/// Relies on openh264's `Decoder::decode` and `DecodedYUV::write_rgb8`: a chunk
/// may complete a picture or not; a completed one is written out as RGB, into a
/// buffer of `rgb8_len` (three samples per pixel) bytes.
#[verifier::external_body]
pub fn decode_chunk(
    decoder: &mut openh264::decoder::Decoder,
    chunk: &[u8],
) -> (r: Result<Option<RgbFrame>, openh264::Error>)
    ensures
        r matches Ok(Some(f)) ==> f.wf(),
{
    match decoder.decode(chunk)? {
        Some(yuv) => {
            let (width, height) = yuv.dimensions();
            let mut pixels = vec![0u8; yuv.rgb8_len()];
            yuv.write_rgb8(&mut pixels);
            Ok(Some(RgbFrame { width: width as u32, height: height as u32, pixels }))
        },
        None => Ok(None),
    }
}

} // verus!
