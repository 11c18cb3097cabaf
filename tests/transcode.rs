use mcap_video::channels::ChannelTable;
use mcap_video::codec::{new_decoder, RgbFrame};
use mcap_video::error::TranscodeError;
use mcap_video::live::{image_for_decoded, republish, republish_decoded};
use mcap_video::msg::{CompressedImage, Header, Stamp};
use mcap_video::pipeline::{
    is_compressed_image_schema, video_file_name_of, video_topic, Transcoder, DEFAULT_BITRATE_BPS,
};

const SCHEMA: &[u8] = b"sensor_msgs/CompressedImage";

fn header(secs: u32, nsecs: u32) -> Header {
    Header { seq: 7, stamp: Stamp { secs, nsecs }, frame_id: b"cam".to_vec() }
}

fn gradient(width: u32, height: u32, shift: u32) -> image::RgbImage {
    image::RgbImage::from_fn(width, height, |x, y| {
        image::Rgb([((x * 3 + shift) % 256) as u8, ((y * 4) % 256) as u8, 128])
    })
}

fn encoded(img: &image::RgbImage, format: image::ImageFormat) -> Vec<u8> {
    let mut out = std::io::Cursor::new(Vec::new());
    image::DynamicImage::ImageRgb8(img.clone()).write_to(&mut out, format).unwrap();
    out.into_inner()
}

fn jpeg(width: u32, height: u32, shift: u32) -> Vec<u8> {
    encoded(&gradient(width, height, shift), image::ImageFormat::Jpeg)
}

fn message(h: Header, data: Vec<u8>) -> Vec<u8> {
    CompressedImage { header: h, format: b"jpeg".to_vec(), data }.to_bytes()
}

fn frame(width: u32, height: u32) -> RgbFrame {
    RgbFrame { width, height, pixels: gradient(width, height, 0).into_raw() }
}

#[test]
fn wire_bytes_of_a_compressed_image() {
    let m = CompressedImage { header: header(2, 3), format: b"ab".to_vec(), data: vec![9, 8, 7] };
    let bytes = m.to_bytes();
    let expected: Vec<u8> = vec![
        7, 0, 0, 0, 2, 0, 0, 0, 3, 0, 0, 0, 3, 0, 0, 0, b'c', b'a', b'm', 2, 0, 0, 0, b'a', b'b', 3,
        0, 0, 0, 9, 8, 7,
    ];
    assert_eq!(bytes, expected);
    let back = CompressedImage::from_bytes(&bytes).unwrap();
    assert_eq!(back.header.seq, 7);
    assert_eq!(back.header.stamp, Stamp { secs: 2, nsecs: 3 });
    assert_eq!(back.header.frame_id, b"cam".to_vec());
    assert_eq!(back.format, b"ab".to_vec());
    assert_eq!(back.data, vec![9, 8, 7]);
}

#[test]
fn truncated_or_padded_bytes_are_rejected() {
    let bytes = message(header(1, 0), vec![1, 2, 3]);
    assert!(CompressedImage::from_bytes(&bytes[..bytes.len() - 1]).is_none());
    let mut longer = bytes.clone();
    longer.push(0);
    assert!(CompressedImage::from_bytes(&longer).is_none());
    assert!(CompressedImage::from_bytes(&[]).is_none());
}

#[test]
fn stamp_in_nanoseconds() {
    assert_eq!(Stamp { secs: 1, nsecs: 5 }.to_nanos(), 1_000_000_005);
    assert_eq!(Stamp { secs: u32::MAX, nsecs: u32::MAX }.to_nanos(), 4_294_967_295_000_000_000 + 4_294_967_295);
}

#[test]
fn channel_is_registered_once() {
    let mut t = ChannelTable::new();
    assert_eq!(t.ensure_channel(b"foo"), Some((0, true)));
    assert_eq!(t.ensure_channel(b"foo"), Some((0, false)));
    assert_eq!(t.ensure_channel(b"foo"), Some((0, false)));
    assert_eq!(t.len(), 1);
    assert_eq!(t.ensure_channel(b"bar"), Some((1, true)));
    assert_eq!(t.lookup(b"foo"), Some(0));
    assert_eq!(t.lookup(b"baz"), None);
    assert_eq!(t.len(), 2);
}

#[test]
fn output_names() {
    assert_eq!(video_topic(b"/cam/image"), b"/cam/image_video".to_vec());
    assert_eq!(video_file_name_of(b"/cam/image_video"), b"_cam_image_video.mp4".to_vec());
    assert!(is_compressed_image_schema(SCHEMA));
    assert!(!is_compressed_image_schema(b"sensor_msgs/Image"));
}

#[test]
fn three_jpeg_frames_make_one_channel() {
    let mut t = Transcoder::new(DEFAULT_BITRATE_BPS);
    let stamps = [(10u32, 5u32), (10, 500), (11, 0)];
    let mut total = Vec::new();
    for (i, (secs, nsecs)) in stamps.iter().enumerate() {
        let payload = message(header(*secs, *nsecs), jpeg(64, 48, i as u32 * 10));
        let w = t.process_entry(b"/cam/image", SCHEMA, &payload).unwrap().unwrap();
        assert_eq!(w.topic, b"/cam/image_video".to_vec());
        assert_eq!(w.new_channel, i == 0);
        assert_eq!(w.message.channel_id, 0);
        assert_eq!(w.message.sequence, 0);
        let nanos = *secs as u64 * 1_000_000_000 + *nsecs as u64;
        assert_eq!(w.message.log_time, nanos);
        assert_eq!(w.message.publish_time, nanos);
        let out = CompressedImage::from_bytes(&w.message.data).unwrap();
        assert_eq!(out.header.stamp, Stamp { secs: *secs, nsecs: *nsecs });
        assert_eq!(out.header.frame_id, b"cam".to_vec());
        assert_eq!(out.format, b"h264".to_vec());
        total.extend_from_slice(&out.data);
    }
    assert_eq!(t.channels.len(), 1);
    let files = t.finish();
    assert_eq!(files.len(), 1);
    assert_eq!(files[0].file_name, b"_cam_image_video.mp4".to_vec());
    assert_eq!(files[0].track_name, b"/cam/image_video".to_vec());
    assert_eq!((files[0].width, files[0].height), (64, 48));
    assert_eq!(files[0].h264, total);
    assert!(files[0].h264.starts_with(&[0, 0, 0, 1]));
}

#[test]
fn other_schema_is_skipped() {
    let mut t = Transcoder::new(DEFAULT_BITRATE_BPS);
    let payload = message(header(1, 0), jpeg(64, 48, 0));
    assert!(t.process_entry(b"/cam/raw", b"sensor_msgs/Image", &payload).unwrap().is_none());
    assert_eq!(t.channels.len(), 0);
    assert_eq!(t.streams.len(), 0);
    assert!(t.finish().is_empty());
}

#[test]
fn size_change_is_a_dimension_mismatch() {
    let mut t = Transcoder::new(DEFAULT_BITRATE_BPS);
    t.process_frame(b"/cam", &header(1, 0), &frame(640, 480)).unwrap();
    let before = t.streams.get(0).3.to_vec();
    let r = t.process_frame(b"/cam", &header(2, 0), &frame(800, 600));
    assert_eq!(
        r.err(),
        Some(TranscodeError::DimensionMismatch {
            expected_width: 640,
            expected_height: 480,
            width: 800,
            height: 600
        })
    );
    assert_eq!(t.streams.len(), 1);
    let (topic, width, height, h264) = t.streams.get(0);
    assert_eq!((topic, width, height), (&b"/cam_video"[..], 640, 480));
    assert_eq!(h264, &before[..]);
    assert_eq!(t.channels.len(), 1);
}

#[test]
fn topics_keep_their_own_encoders() {
    let mut t = Transcoder::new(DEFAULT_BITRATE_BPS);
    let a = t.process_frame(b"/a", &header(1, 0), &frame(64, 48)).unwrap();
    let b = t.process_frame(b"/b", &header(1, 0), &frame(32, 16)).unwrap();
    assert_eq!((a.message.channel_id, b.message.channel_id), (0, 1));
    assert_eq!(t.streams.len(), 2);
    assert_eq!(t.streams.get(1).1, 32);
}

#[test]
fn undecodable_entries_fail() {
    let mut t = Transcoder::new(DEFAULT_BITRATE_BPS);
    assert_eq!(t.process_entry(b"/c", SCHEMA, &[1, 2, 3]).err(), Some(TranscodeError::DecodeError));
    let not_an_image = message(header(1, 0), vec![1, 2, 3, 4, 5]);
    assert_eq!(t.process_entry(b"/c", SCHEMA, &not_an_image).err(), Some(TranscodeError::DecodeError));
    assert_eq!(t.channels.len(), 0);
}

#[test]
fn odd_size_cannot_be_encoded() {
    let mut t = Transcoder::new(DEFAULT_BITRATE_BPS);
    let r = t.process_frame(b"/c", &header(1, 0), &frame(63, 48));
    assert_eq!(r.err(), Some(TranscodeError::EncodeError));
    assert_eq!(t.channels.len(), 0);
}

#[test]
fn png_frames_are_sniffed_too() {
    let mut t = Transcoder::new(DEFAULT_BITRATE_BPS);
    let png = encoded(&gradient(32, 32, 0), image::ImageFormat::Png);
    let w = t.process_entry(b"/p", SCHEMA, &message(header(3, 0), png)).unwrap().unwrap();
    assert_eq!(w.message.log_time, 3_000_000_000);
    assert_eq!((t.streams.get(0).1, t.streams.get(0).2), (32, 32));
}

/// Width, height and pixels of a raw image message's wire bytes.
fn image_parts(bytes: &[u8]) -> (u32, u32, Vec<u8>) {
    let u32_at = |i: usize| u32::from_le_bytes([bytes[i], bytes[i + 1], bytes[i + 2], bytes[i + 3]]);
    let frame_id_len = u32_at(12) as usize;
    let p = 16 + frame_id_len;
    let height = u32_at(p);
    let width = u32_at(p + 4);
    let encoding_len = u32_at(p + 8) as usize;
    let q = p + 12 + encoding_len + 1 + 4;
    let data_len = u32_at(q) as usize;
    (width, height, bytes[q + 4..q + 4 + data_len].to_vec())
}

#[test]
fn video_decodes_back_to_the_same_size() {
    let mut t = Transcoder::new(DEFAULT_BITRATE_BPS);
    let mut decoder = new_decoder().unwrap();
    let source = gradient(64, 48, 0);
    let mut decoded = Vec::new();
    for i in 0..3u32 {
        let payload = message(header(i, 0), encoded(&source, image::ImageFormat::Png));
        let w = t.process_entry(b"/cam", SCHEMA, &payload).unwrap().unwrap();
        if let Some(img) = republish(&mut decoder, &w.message.data).unwrap() {
            decoded.push(image_parts(&img));
        }
    }
    assert!(!decoded.is_empty());
    for (width, height, pixels) in decoded {
        assert_eq!((width, height), (64, 48));
        assert_eq!(pixels.len(), 64 * 48 * 3);
        let err: u64 = pixels
            .iter()
            .zip(source.as_raw().iter())
            .map(|(a, b)| (*a as i64 - *b as i64).unsigned_abs())
            .sum();
        assert!(err / (pixels.len() as u64) < 24);
    }
}

#[test]
fn parameter_sets_alone_give_no_picture() {
    let mut t = Transcoder::new(DEFAULT_BITRATE_BPS);
    let w = t.process_frame(b"/cam", &header(1, 0), &frame(64, 48)).unwrap();
    let units = CompressedImage::from_bytes(&w.message.data).unwrap().data;
    let mut cut = None;
    for i in 0..units.len().saturating_sub(4) {
        if units[i..i + 4] == [0, 0, 0, 1] && units[i + 4] & 0x1f == 5 {
            cut = Some(i);
            break;
        }
    }
    let params = units[..cut.unwrap()].to_vec();
    assert!(!params.is_empty());
    let payload = CompressedImage { header: header(1, 0), format: b"h264".to_vec(), data: params }.to_bytes();
    let mut decoder = new_decoder().unwrap();
    assert!(republish(&mut decoder, &payload).unwrap().is_none());
}

#[test]
fn no_picture_is_no_image() {
    assert!(image_for_decoded(&header(1, 0), None).is_none());
    let img = image_for_decoded(&header(1, 2), Some(RgbFrame { width: 2, height: 1, pixels: vec![1, 2, 3, 4, 5, 6] })).unwrap();
    assert_eq!((img.width, img.height, img.step, img.is_bigendian), (2, 1, 6, 0));
    assert_eq!(img.encoding, b"rgb8".to_vec());
    assert_eq!(img.data, vec![1, 2, 3, 4, 5, 6]);
    assert_eq!(img.header.stamp, Stamp { secs: 1, nsecs: 2 });
}

#[test]
fn garbage_chunk_message_is_a_decode_error() {
    let mut decoder = new_decoder().unwrap();
    assert_eq!(republish(&mut decoder, &[0, 1]).err(), Some(TranscodeError::DecodeError));
}

#[test]
fn decoder_outcomes_become_republished_images() {
    let h = header(4, 0);
    assert_eq!(republish_decoded(&h, Ok(None)), Ok(None));
    assert_eq!(
        republish_decoded(&h, Err(openh264::Error::msg("bad chunk"))),
        Err(TranscodeError::DecodeError)
    );
    let f = RgbFrame { width: 2, height: 1, pixels: vec![1, 2, 3, 4, 5, 6] };
    let bytes = republish_decoded(&h, Ok(Some(f))).unwrap().unwrap();
    assert_eq!(image_parts(&bytes), (2, 1, vec![1, 2, 3, 4, 5, 6]));
}
