//! The live direction: H.264 chunks in compressed image messages are decoded
//! with one persistent decoder and republished as raw RGB images.
use vstd::prelude::*;
use crate::codec::{decode_chunk, RgbFrame};
use crate::error::TranscodeError;
use crate::msg::{
    image_bytes, image_encodable, parse_compressed_image, CompressedImage, Header, HeaderModel,
    Image, ImageModel,
};

verus! {

/// `rgb8`, the pixel encoding of the republished images.
pub open spec fn rgb8_encoding() -> Seq<u8> {
    seq![114u8, 103u8, 98u8, 56u8]
}

/// The raw image that carries `frame` under `header`.
pub open spec fn image_model(header: HeaderModel, frame_width: u32, frame_height: u32, pixels: Seq<
    u8,
>) -> ImageModel {
    ImageModel {
        header,
        height: frame_height,
        width: frame_width,
        encoding: rgb8_encoding(),
        is_bigendian: 0,
        step: (3 * frame_width) as u32,
        data: pixels,
    }
}

/// The raw image message for what the decoder handed back for a chunk whose
/// message had `header`: none where no picture was completed, which is no
/// failure; else the picture, as `rgb8` rows of three bytes per pixel.
/// `None` too where a row's length does not fit in 32 bits or the pixels do
/// not fit in a message.
pub fn image_for_decoded(header: &Header, decoded: Option<RgbFrame>) -> (r: Option<Image>)
    requires
        decoded matches Some(f) ==> f.wf(),
    ensures
        match decoded {
            None => r is None,
            Some(f) => if 3 * f.width <= u32::MAX && f.pixels@.len() < 0x1_0000_0000
                && header.frame_id@.len() < 0x1_0000_0000 {
                r matches Some(m) && m@ == image_model(header@, f.width, f.height, f.pixels@)
                    && image_encodable(m@)
            } else {
                r is None
            },
        },
{
    match decoded {
        None => None,
        Some(f) => {
            if f.width > u32::MAX / 3 || f.pixels.len() as u64 >= 0x1_0000_0000u64
                || header.frame_id.len() as u64 >= 0x1_0000_0000u64 {
                return None;
            }
            let m = Image {
                header: header.clone_header(),
                height: f.height,
                width: f.width,
                encoding: vec![114u8, 103u8, 98u8, 56u8],
                is_bigendian: 0,
                step: 3 * f.width,
                data: f.pixels,
            };
            assert(m.encoding@ =~= rgb8_encoding());
            Some(m)
        },
    }
}

/// Decodes the H.264 chunk carried by the compressed image message `payload`
/// with `decoder`, which must be the one decoder of the stream, and returns
/// the wire bytes of the raw image to republish, if a picture was completed.
/// Fails with `DecodeError` where the payload is no compressed image message
/// or the decoder rejects the chunk.
pub fn republish(decoder: &mut openh264::decoder::Decoder, payload: &[u8]) -> (r: Result<
    Option<Vec<u8>>,
    TranscodeError,
>)
    ensures
        parse_compressed_image(payload@) is None ==> r == Err::<Option<Vec<u8>>, TranscodeError>(
            TranscodeError::DecodeError,
        ),
        r matches Ok(Some(bytes)) ==> exists|m: ImageModel|
            image_encodable(m) && bytes@ == image_bytes(m) && m.header == parse_compressed_image(
                payload@,
            )->Some_0.header && m.encoding == rgb8_encoding() && m.step == 3 * m.width
                && m.data.len() == 3 * (m.width as nat) * (m.height as nat),
{
    let msg = match CompressedImage::from_bytes(payload) {
        Some(m) => m,
        None => {
            proof {
                if parse_compressed_image(payload@) is Some {
                    crate::msg::lemma_compressed_image_parsed_bytes(payload@);
                }
            }
            return Err(TranscodeError::DecodeError);
        },
    };
    proof {
        crate::msg::lemma_compressed_image_round_trip(msg@);
    }
    republish_decoded(&msg.header, decode_chunk(decoder, msg.data.as_slice()))
}

/// The wire bytes of the raw image to republish for what the decoder handed
/// back for a chunk whose message had `header`: a rejected chunk is a
/// `DecodeError`; no completed picture is `Ok(None)`, no failure; a picture
/// is its `rgb8` image (or `Ok(None)` where it does not fit in a message).
pub fn republish_decoded(
    header: &Header,
    decoded: Result<Option<RgbFrame>, openh264::Error>,
) -> (r: Result<Option<Vec<u8>>, TranscodeError>)
    requires
        decoded matches Ok(Some(f)) ==> f.wf(),
    ensures
        match decoded {
            Err(_) => r == Err::<Option<Vec<u8>>, TranscodeError>(TranscodeError::DecodeError),
            Ok(None) => r == Ok::<Option<Vec<u8>>, TranscodeError>(None),
            Ok(Some(f)) => if 3 * f.width <= u32::MAX && f.pixels@.len() < 0x1_0000_0000
                && header.frame_id@.len() < 0x1_0000_0000 {
                r matches Ok(Some(bytes)) && bytes@ == image_bytes(
                    image_model(header@, f.width, f.height, f.pixels@),
                )
            } else {
                r == Ok::<Option<Vec<u8>>, TranscodeError>(None)
            },
        },
{
    match decoded {
        Err(_) => Err(TranscodeError::DecodeError),
        Ok(d) => match image_for_decoded(header, d) {
            Some(image) => Ok(Some(image.to_bytes())),
            None => Ok(None),
        },
    }
}

} // verus!
