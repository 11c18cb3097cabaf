//! Per-topic encoder state: one encoder per output topic, bound to the size of
//! the topic's first frame, and the H.264 bytes that it has produced so far.
use vstd::prelude::*;
use crate::channels::bytes_eq;
use crate::codec::{encode_rgb, new_encoder, RgbFrame};
use crate::error::TranscodeError;
use crate::wire::extend_bytes;

verus! {

/// One topic's encoder, its frame size and everything it has produced.
pub struct TopicStream {
    pub topic: Vec<u8>,
    pub width: u32,
    pub height: u32,
    pub encoder: openh264::encoder::Encoder,
    pub h264: Vec<u8>,
}

pub struct StreamModel {
    pub topic: Seq<u8>,
    pub width: u32,
    pub height: u32,
    pub h264: Seq<u8>,
}

impl View for TopicStream {
    type V = StreamModel;

    open spec fn view(&self) -> StreamModel {
        StreamModel { topic: self.topic@, width: self.width, height: self.height, h264: self.h264@ }
    }
}

/// Whether some stream of `s` belongs to `topic`.
pub open spec fn has_topic(s: Seq<StreamModel>, topic: Seq<u8>) -> bool {
    exists|j: int| 0 <= j < s.len() && s[j].topic == topic
}

/// A topic's streams, one per topic.
pub struct TopicStreams {
    streams: Vec<TopicStream>,
}

impl View for TopicStreams {
    type V = Seq<StreamModel>;

    closed spec fn view(&self) -> Seq<StreamModel> {
        self.streams@.map_values(|s: TopicStream| s@)
    }
}

impl TopicStreams {
    /// Each topic has one stream at most.
    pub open spec fn wf(&self) -> bool {
        forall|a: int, b: int|
            0 <= a < b < self@.len() ==> #[trigger] self@[a].topic != #[trigger] self@[b].topic
    }

    /// No streams.
    pub fn new() -> (r: TopicStreams)
        ensures
            r.wf(),
            r@ == Seq::<StreamModel>::empty(),
    {
        let r = TopicStreams { streams: Vec::new() };
        assert(r@ =~= Seq::<StreamModel>::empty());
        r
    }

    /// The number of streams.
    pub fn len(&self) -> (r: usize)
        ensures
            r == self@.len(),
    {
        self.streams.len()
    }

    /// The topic, frame size and H.264 bytes of the stream at `i`.
    pub fn get(&self, i: usize) -> (r: (&[u8], u32, u32, &[u8]))
        requires
            i < self@.len(),
        ensures
            r.0@ == self@[i as int].topic,
            r.1 == self@[i as int].width,
            r.2 == self@[i as int].height,
            r.3@ == self@[i as int].h264,
    {
        let s = &self.streams[i];
        (s.topic.as_slice(), s.width, s.height, s.h264.as_slice())
    }

    /// The place of `topic`'s stream, if it has one.
    pub fn find(&self, topic: &[u8]) -> (r: Option<usize>)
        requires
            self.wf(),
        ensures
            match r {
                Some(i) => i < self@.len() && self@[i as int].topic == topic@,
                None => !has_topic(self@, topic@),
            },
    {
        let mut i: usize = 0;
        while i < self.streams.len()
            invariant
                i <= self@.len(),
                forall|k: int| 0 <= k < i ==> self@[k].topic != topic@,
            decreases self@.len() - i,
        {
            if bytes_eq(self.streams[i].topic.as_slice(), topic) {
                return Some(i);
            }
            i = i + 1;
        }
        None
    }

    /// The place of `topic`'s stream, made with an encoder for frames of
    /// `width` by `height` where the topic has none yet. Where the topic has a
    /// stream for another size, fails with `DimensionMismatch` and changes
    /// nothing; where the encoder cannot be made, fails with `EncodeError`.
    pub fn get_or_create(&mut self, topic: &[u8], width: u32, height: u32, bitrate_bps: u32) -> (r:
        Result<usize, TranscodeError>)
        requires
            old(self).wf(),
        ensures
            final(self).wf(),
            match r {
                Ok(i) => i < final(self)@.len() && final(self)@[i as int].topic == topic@
                    && final(self)@[i as int].width == width && final(self)@[i as int].height
                    == height && if has_topic(old(self)@, topic@) {
                    final(self)@ == old(self)@
                } else {
                    i == old(self)@.len() && final(self)@ == old(self)@.push(
                        StreamModel { topic: topic@, width, height, h264: Seq::empty() },
                    )
                },
                Err(TranscodeError::DimensionMismatch {
                    expected_width,
                    expected_height,
                    width: w,
                    height: h,
                }) => final(self)@ == old(self)@ && w == width && h == height && exists|j: int|
                    0 <= j < old(self)@.len() && old(self)@[j].topic == topic@ && old(self)@[j].width
                        == expected_width && old(self)@[j].height == expected_height && (
                    expected_width != width || expected_height != height),
                Err(e) => e == TranscodeError::EncodeError && final(self)@ == old(self)@
                    && !has_topic(old(self)@, topic@),
            },
            has_topic(old(self)@, topic@) ==> (r is Err <==> exists|j: int|
                0 <= j < old(self)@.len() && old(self)@[j].topic == topic@ && (old(self)@[j].width
                    != width || old(self)@[j].height != height)),
    {
        match self.find(topic) {
            Some(i) => {
                let s = &self.streams[i];
                if s.width == width && s.height == height {
                    Ok(i)
                } else {
                    Err(
                        TranscodeError::DimensionMismatch {
                            expected_width: s.width,
                            expected_height: s.height,
                            width,
                            height,
                        },
                    )
                }
            },
            None => {
                match new_encoder(bitrate_bps) {
                    Ok(encoder) => {
                        let mut t: Vec<u8> = Vec::new();
                        extend_bytes(&mut t, topic);
                        let ghost before = self@;
                        let i = self.streams.len();
                        self.streams.push(
                            TopicStream { topic: t, width, height, encoder, h264: Vec::new() },
                        );
                        assert(self@ =~= before.push(
                            StreamModel { topic: topic@, width, height, h264: Seq::empty() },
                        ));
                        proof {
                            assert forall|a: int, b: int|
                                0 <= a < b < self@.len() implies #[trigger] self@[a].topic
                                != #[trigger] self@[b].topic by {
                                if b == before.len() {
                                    assert(before[a] == self@[a]);
                                } else {
                                    assert(before[a] == self@[a] && before[b] == self@[b]);
                                }
                            }
                        }
                        Ok(i)
                    },
                    Err(_) => Err(TranscodeError::EncodeError),
                }
            },
        }
    }

    /// Encodes `frame` with the encoder of the stream at `i`, appends the access
    /// units that come out to the stream's H.264 bytes and returns them. Fails
    /// with `EncodeError`, changing nothing, where the encoder cannot take the
    /// frame (a side that is zero or odd) or rejects it.
    pub fn encode(&mut self, i: usize, frame: &RgbFrame) -> (r: Result<Vec<u8>, TranscodeError>)
        requires
            old(self).wf(),
            i < old(self)@.len(),
            frame.wf(),
            frame.width == old(self)@[i as int].width,
            frame.height == old(self)@[i as int].height,
        ensures
            final(self).wf(),
            match r {
                Ok(units) => final(self)@ == old(self)@.update(
                    i as int,
                    StreamModel { h264: old(self)@[i as int].h264 + units@, ..old(self)@[i as int] },
                ),
                Err(e) => e == TranscodeError::EncodeError && final(self)@ == old(self)@,
            },
            (frame.width == 0 || frame.height == 0 || frame.width % 2 == 1 || frame.height % 2 == 1)
                ==> r is Err,
    {
        if frame.width == 0 || frame.height == 0 || frame.width % 2 == 1 || frame.height % 2 == 1 {
            return Err(TranscodeError::EncodeError);
        }
        let ghost before = self@;
        let mut s = self.streams.remove(i);
        let ghost removed = self.streams@;
        let result = encode_rgb(&mut s.encoder, frame.pixels.as_slice(), frame.width, frame.height);
        let r = match result {
            Ok(units) => {
                extend_bytes(&mut s.h264, units.as_slice());
                Ok(units)
            },
            Err(_) => Err(TranscodeError::EncodeError),
        };
        self.streams.insert(i, s);
        proof {
            let updated = match &r {
                Ok(units) => before.update(
                    i as int,
                    StreamModel { h264: before[i as int].h264 + units@, ..before[i as int] },
                ),
                Err(_) => before,
            };
            assert(self.streams@ == removed.insert(i as int, s));
            assert(self@ =~= updated);
            assert forall|a: int, b: int|
                0 <= a < b < self@.len() implies #[trigger] self@[a].topic
                != #[trigger] self@[b].topic by {
                assert(self@[a].topic == before[a].topic && self@[b].topic == before[b].topic);
            }
        }
        r
    }
}

} // verus!
