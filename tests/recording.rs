use mcap_video::error::TranscodeError;
use mcap_video::msg::{CompressedImage, Header, Stamp};
use mcap_video::pipeline::{transcode_recording, DEFAULT_BITRATE_BPS};
use mcap_video::recording::LogEntry;
use std::collections::BTreeMap;
use std::io::Cursor;

fn jpeg_frame(width: u32, height: u32, shift: u32) -> Vec<u8> {
    let img = image::RgbImage::from_fn(width, height, |x, y| {
        image::Rgb([((x + shift) % 256) as u8, ((y * 2) % 256) as u8, 60])
    });
    let mut out = Cursor::new(Vec::new());
    image::DynamicImage::ImageRgb8(img).write_to(&mut out, image::ImageFormat::Jpeg).unwrap();
    out.into_inner()
}

fn payload(secs: u32, nsecs: u32, data: Vec<u8>) -> Vec<u8> {
    CompressedImage {
        header: Header { seq: 0, stamp: Stamp { secs, nsecs }, frame_id: b"camera".to_vec() },
        format: b"jpeg".to_vec(),
        data,
    }
    .to_bytes()
}

/// A recording with three JPEG frames on `/cam/image` and one raw image entry
/// on `/cam/raw`.
fn recording(stamps: &[(u32, u32)]) -> Vec<u8> {
    let mut w = mcap::Writer::new(Cursor::new(Vec::new())).unwrap();
    let compressed = w.add_schema("sensor_msgs/CompressedImage", "ros1msg", b"").unwrap();
    let raw = w.add_schema("sensor_msgs/Image", "ros1msg", b"").unwrap();
    let meta = BTreeMap::new();
    let cam = w.add_channel(compressed, "/cam/image", "ros1", &meta).unwrap();
    let raw_cam = w.add_channel(raw, "/cam/raw", "ros1", &meta).unwrap();
    for (i, (secs, nsecs)) in stamps.iter().enumerate() {
        let header = mcap::records::MessageHeader {
            channel_id: cam,
            sequence: i as u32,
            log_time: 1,
            publish_time: 1,
        };
        w.write_to_known_channel(&header, &payload(*secs, *nsecs, jpeg_frame(48, 32, i as u32)))
            .unwrap();
        let raw_header = mcap::records::MessageHeader {
            channel_id: raw_cam,
            sequence: i as u32,
            log_time: 1,
            publish_time: 1,
        };
        w.write_to_known_channel(&raw_header, &[0, 1, 2, 3]).unwrap();
    }
    w.finish().unwrap();
    w.into_inner().into_inner()
}

/// The entries of a recording, as mcap's message stream reads them.
fn read_entries(bytes: &[u8]) -> Vec<LogEntry> {
    mcap::MessageStream::new(bytes)
        .unwrap()
        .map(|m| {
            let m = m.unwrap();
            LogEntry {
                topic: m.channel.topic.as_bytes().to_vec(),
                schema_name: m.channel.schema.as_ref().map(|s| s.name.as_bytes().to_vec()),
                payload: m.data.into_owned(),
            }
        })
        .collect()
}

#[test]
fn recording_entries_are_read_in_order() {
    let bytes = recording(&[(1, 0), (2, 0)]);
    let entries = read_entries(&bytes);
    assert_eq!(entries.len(), 4);
    assert_eq!(entries[0].topic, b"/cam/image".to_vec());
    assert_eq!(entries[0].schema_name, Some(b"sensor_msgs/CompressedImage".to_vec()));
    assert_eq!(entries[1].topic, b"/cam/raw".to_vec());
    assert_eq!(entries[1].payload, vec![0, 1, 2, 3]);
}

#[test]
fn recording_with_three_frames() {
    let stamps = [(100u32, 1u32), (100, 2), (101, 0)];
    let out = transcode_recording(&read_entries(&recording(&stamps)), DEFAULT_BITRATE_BPS).unwrap();
    assert_eq!(out.channels.len(), 1);
    assert_eq!(out.channels.lookup(b"/cam/image_video"), Some(0));
    assert_eq!(out.channels.lookup(b"/cam/raw_video"), None);
    assert_eq!(out.messages.len(), 3);
    for (w, (secs, nsecs)) in out.messages.iter().zip(stamps.iter()) {
        assert_eq!(w.topic, b"/cam/image_video".to_vec());
        assert_eq!(w.message.channel_id, 0);
        assert_eq!(w.message.log_time, *secs as u64 * 1_000_000_000 + *nsecs as u64);
    }
    assert!(out.messages[0].new_channel);
    assert!(!out.messages[1].new_channel && !out.messages[2].new_channel);
    assert_eq!(out.videos.len(), 1);
    assert_eq!(out.videos[0].file_name, b"_cam_image_video.mp4".to_vec());
    assert_eq!((out.videos[0].width, out.videos[0].height), (48, 32));
}

#[test]
fn pass_with_no_image_entries_is_empty() {
    let entries = vec![LogEntry {
        topic: b"/cam/raw".to_vec(),
        schema_name: Some(b"sensor_msgs/Image".to_vec()),
        payload: vec![0, 1, 2],
    }];
    let out = transcode_recording(&entries, DEFAULT_BITRATE_BPS).unwrap();
    assert!(out.messages.is_empty() && out.videos.is_empty());
    assert_eq!(out.channels.len(), 0);
}

#[test]
fn pass_fails_on_a_size_change() {
    let entry = |secs: u32, w: u32, h: u32| LogEntry {
        topic: b"/cam/image".to_vec(),
        schema_name: Some(b"sensor_msgs/CompressedImage".to_vec()),
        payload: payload(secs, 0, jpeg_frame(w, h, 0)),
    };
    let entries = vec![entry(1, 64, 48), entry(2, 80, 60)];
    assert_eq!(
        transcode_recording(&entries, DEFAULT_BITRATE_BPS).err(),
        Some(TranscodeError::DimensionMismatch {
            expected_width: 64,
            expected_height: 48,
            width: 80,
            height: 60
        })
    );
}

#[test]
fn pass_fails_on_an_undecodable_first_frame() {
    let entries = vec![LogEntry {
        topic: b"/cam/image".to_vec(),
        schema_name: Some(b"sensor_msgs/CompressedImage".to_vec()),
        payload: payload(1, 0, vec![1, 2, 3]),
    }];
    assert_eq!(transcode_recording(&entries, DEFAULT_BITRATE_BPS).err(), Some(TranscodeError::DecodeError));
}
