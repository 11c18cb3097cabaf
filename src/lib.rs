//! Transcoding of camera frames recorded in a structured log into H.264 video.
//!
//! The library holds the logic of the pass: reading the entries of a
//! recording, the ROS1 wire format of the image messages, the derivation of
//! log times, the table of output channels, the per-topic encoder state and
//! the pipeline that drives them; and, for the live direction, the step that
//! turns one H.264 chunk into a raw image to republish.

pub mod wire;
pub mod msg;
pub mod codec;
pub mod channels;
pub mod error;
pub mod streams;
pub mod pipeline;
pub mod live;
pub mod recording;
