//! The transcoding pass: compressed still images in, H.264 chunks out, one
//! output channel and one encoder per source topic.
use vstd::prelude::*;
use crate::channels::{bytes_eq, registered, ChannelTable, MAX_CHANNELS};
use crate::codec::{decode_still, decoded_still_size, RgbFrame};
use crate::error::TranscodeError;
use crate::msg::{
    compressed_image_bytes, compressed_image_encodable, header_encodable, parse_compressed_image,
    lemma_log_times_ordered, stamp_le, stamp_nanos, CompressedImage, CompressedImageModel, Header, HeaderModel,
};
use crate::streams::{has_topic, StreamModel, TopicStreams};
use crate::recording::{EntryModel, LogEntry};
use crate::wire::extend_bytes;

verus! {

/// The bit rate that each topic's encoder aims at.
pub const DEFAULT_BITRATE_BPS: u32 = 10_000_000;

/// `_video`, the suffix of an output topic.
pub open spec fn video_suffix() -> Seq<u8> {
    seq![95u8, 118u8, 105u8, 100u8, 101u8, 111u8]
}

/// `h264`, the format tag of the output messages.
pub open spec fn h264_format() -> Seq<u8> {
    seq![104u8, 50u8, 54u8, 52u8]
}

/// `sensor_msgs/CompressedImage`, the schema name of the messages transcoded.
pub open spec fn compressed_image_schema() -> Seq<u8> {
    seq![
        115u8, 101u8, 110u8, 115u8, 111u8, 114u8, 95u8, 109u8, 115u8, 103u8, 115u8, 47u8, 67u8,
        111u8, 109u8, 112u8, 114u8, 101u8, 115u8, 115u8, 101u8, 100u8, 73u8, 109u8, 97u8, 103u8,
        101u8,
    ]
}

/// `.mp4`, the extension of the video files.
pub open spec fn mp4_extension() -> Seq<u8> {
    seq![46u8, 109u8, 112u8, 52u8]
}

/// The name of a topic's video file: the topic with every `/` made `_`, then `.mp4`.
pub open spec fn video_file_name(topic: Seq<u8>) -> Seq<u8> {
    topic.map_values(|c: u8| if c == 47 { 95u8 } else { c }) + mp4_extension()
}

fn bytes_of(b: &[u8]) -> (r: Vec<u8>)
    ensures
        r@ == b@,
{
    let mut r: Vec<u8> = Vec::new();
    extend_bytes(&mut r, b);
    r
}

/// The output topic of a source topic: the source topic followed by `_video`.
pub fn video_topic(topic: &[u8]) -> (r: Vec<u8>)
    ensures
        r@ == topic@ + video_suffix(),
{
    let mut r = bytes_of(topic);
    let suffix: Vec<u8> = vec![95u8, 118u8, 105u8, 100u8, 101u8, 111u8];
    extend_bytes(&mut r, suffix.as_slice());
    assert(suffix@ =~= video_suffix());
    r
}

/// Whether entries of the schema named `name` are transcoded.
pub fn is_compressed_image_schema(name: &[u8]) -> (r: bool)
    ensures
        r == (name@ == compressed_image_schema()),
{
    let expected: Vec<u8> = vec![
        115u8, 101u8, 110u8, 115u8, 111u8, 114u8, 95u8, 109u8, 115u8, 103u8, 115u8, 47u8, 67u8,
        111u8, 109u8, 112u8, 114u8, 101u8, 115u8, 115u8, 101u8, 100u8, 73u8, 109u8, 97u8, 103u8,
        101u8,
    ];
    assert(expected@ =~= compressed_image_schema());
    bytes_eq(name, expected.as_slice())
}

/// The name of the video file of `topic`.
pub fn video_file_name_of(topic: &[u8]) -> (r: Vec<u8>)
    ensures
        r@ == video_file_name(topic@),
{
    let mut r: Vec<u8> = Vec::new();
    let mut i: usize = 0;
    while i < topic.len()
        invariant
            i <= topic@.len(),
            r@ == topic@.subrange(0, i as int).map_values(|c: u8| if c == 47 { 95u8 } else { c }),
        decreases topic@.len() - i,
    {
        let c = topic[i];
        r.push(if c == 47 { 95u8 } else { c });
        i = i + 1;
        assert(r@ =~= topic@.subrange(0, i as int).map_values(
            |c: u8| if c == 47 { 95u8 } else { c },
        ));
    }
    assert(topic@.subrange(0, topic@.len() as int) =~= topic@);
    let ext: Vec<u8> = vec![46u8, 109u8, 112u8, 52u8];
    assert(ext@ =~= mp4_extension());
    extend_bytes(&mut r, ext.as_slice());
    r
}

/// Whether an entry is one that the pass transcodes.
pub open spec fn is_selected(e: EntryModel) -> bool {
    e.schema_name == Some(compressed_image_schema())
}

/// The entries that the pass transcodes, in order.
pub open spec fn selected(es: Seq<EntryModel>) -> Seq<EntryModel> {
    es.filter(|e: EntryModel| is_selected(e))
}

/// The header stamp of a transcoded entry.
pub open spec fn entry_stamp(e: EntryModel) -> crate::msg::Stamp {
    parse_compressed_image(e.payload)->Some_0.header.stamp
}

/// What the output holds for one transcoded entry `e`: an entry on the
/// channel of `e`'s topic followed by `_video`, at the log time of `e`'s header
/// stamp.
pub open spec fn output_follows(w: Written, e: EntryModel, channels: Seq<Seq<u8>>) -> bool {
    &&& parse_compressed_image(e.payload) is Some
    &&& w.topic@ == e.topic + video_suffix()
    &&& (w.message.channel_id as int) < channels.len()
    &&& channels[w.message.channel_id as int] == w.topic@
    &&& w.message.log_time == stamp_nanos(entry_stamp(e))
    &&& w.message.publish_time == w.message.log_time
}

/// What the output holds for the transcoded entries `sel`: one entry each, in
/// the same order.
pub open spec fn outputs_follow(ws: Seq<Written>, sel: Seq<EntryModel>, channels: Seq<Seq<u8>>) -> bool {
    &&& ws.len() == sel.len()
    &&& forall|k: int| 0 <= k < ws.len() ==> output_follows(#[trigger] ws[k], sel[k], channels)
}

/// Over a pass, the output is written in the order of the transcoded entries'
/// header stamps: where those stamps never go back (each with fewer than a
/// second of nanoseconds), the log times of the output never go back either,
/// on every channel and over all of them, in write order.
pub proof fn lemma_pass_log_times_ordered(ws: Seq<Written>, sel: Seq<EntryModel>, channels: Seq<Seq<u8>>)
    requires
        outputs_follow(ws, sel, channels),
        forall|i: int| 0 <= i < sel.len() ==> (#[trigger] entry_stamp(sel[i])).nsecs < 1_000_000_000,
        forall|i: int, j: int|
            0 <= i < j < sel.len() ==> stamp_le(
                #[trigger] entry_stamp(sel[i]),
                #[trigger] entry_stamp(sel[j]),
            ),
    ensures
        forall|i: int, j: int|
            0 <= i < j < ws.len() ==> (#[trigger] ws[i]).message.log_time <= (
            #[trigger] ws[j]).message.log_time,
{
    let stamps = sel.map_values(|e: EntryModel| entry_stamp(e));
    assert forall|i: int| 0 <= i < stamps.len() implies #[trigger] stamps[i].nsecs < 1_000_000_000 by {
        assert(stamps[i] == entry_stamp(sel[i]));
    }
    assert forall|i: int, j: int| 0 <= i < j < stamps.len() implies stamp_le(
        #[trigger] stamps[i],
        #[trigger] stamps[j],
    ) by {
        assert(stamps[i] == entry_stamp(sel[i]) && stamps[j] == entry_stamp(sel[j]));
    }
    lemma_log_times_ordered(stamps);
    assert forall|i: int, j: int| 0 <= i < j < ws.len() implies (#[trigger] ws[i]).message.log_time
        <= (#[trigger] ws[j]).message.log_time by {
        assert(output_follows(ws[i], sel[i], channels) && output_follows(ws[j], sel[j], channels));
        assert(stamps[i] == entry_stamp(sel[i]) && stamps[j] == entry_stamp(sel[j]));
    }
}

/// The access units that an output entry carries.
pub open spec fn written_units(w: Written) -> Seq<u8> {
    parse_compressed_image(w.message.data@)->Some_0.data
}

/// How one frame of `width` by `height` changes the streams `os` into `ns`:
/// the stream at `k` belongs to `vt`, has that size and gains `units`, made
/// at the end where `vt` had no stream.
pub open spec fn stream_step(
    os: Seq<StreamModel>,
    ns: Seq<StreamModel>,
    k: int,
    vt: Seq<u8>,
    width: u32,
    height: u32,
    units: Seq<u8>,
) -> bool {
    &&& 0 <= k < ns.len()
    &&& ns[k].topic == vt
    &&& ns[k].width == width
    &&& ns[k].height == height
    &&& if has_topic(os, vt) {
        k < os.len() && ns == os.update(k, StreamModel { h264: os[k].h264 + units, ..os[k] })
    } else {
        k == os.len() && ns == os.push(StreamModel { topic: vt, width, height, h264: units })
    }
}

/// What transcoding one frame of `width` by `height` under `header` for the
/// output topic `vt` does: the channels `oc` become `nc` (the topic's channel
/// registered on first use, flagged in `w`), the streams `os` become `ns`, and
/// `w` is an `h264` message with the same header carrying the new access
/// units, on the topic's channel, with the header's sequence number and the
/// log time of its stamp.
#[verifier::opaque]
pub open spec fn frame_written(
    oc: Seq<Seq<u8>>,
    os: Seq<StreamModel>,
    nc: Seq<Seq<u8>>,
    ns: Seq<StreamModel>,
    w: Written,
    vt: Seq<u8>,
    header: HeaderModel,
    width: u32,
    height: u32,
) -> bool {
    &&& w.topic@ == vt
    &&& w.new_channel == !oc.contains(vt)
    &&& nc == registered(oc, vt)
    &&& (w.message.channel_id as int) < nc.len()
    &&& nc[w.message.channel_id as int] == vt
    &&& w.message.sequence == 0
    &&& w.message.log_time == stamp_nanos(header.stamp)
    &&& w.message.publish_time == w.message.log_time
    &&& parse_compressed_image(w.message.data@) == Some(
        CompressedImageModel { header, format: h264_format(), data: written_units(w) },
    )
    &&& exists|k: int| stream_step(os, ns, k, vt, width, height, written_units(w))
}

/// Which error transcoding a frame of `width` by `height` for the output topic
/// `vt` gives before any encoder call, where `vt` already has a stream of that
/// size: `TooManyChannels` where the topic has no channel and none is left,
/// else `EncodeError` where a side is zero or odd.
pub open spec fn frame_errors<T>(
    oc: Seq<Seq<u8>>,
    os: Seq<StreamModel>,
    vt: Seq<u8>,
    width: u32,
    height: u32,
    r: Result<T, TranscodeError>,
) -> bool {
    (exists|j: int|
        0 <= j < os.len() && os[j].topic == vt && os[j].width == width && os[j].height == height)
        ==> {
        let full = oc.len() == MAX_CHANNELS && !oc.contains(vt);
        &&& (full ==> r == Err::<T, TranscodeError>(TranscodeError::TooManyChannels))
        &&& (!full && (width == 0 || height == 0 || width % 2 == 1 || height % 2 == 1) ==> r
            == Err::<T, TranscodeError>(TranscodeError::EncodeError))
    }
}

/// One entry of the output log.
#[derive(Clone, Debug)]
pub struct OutputMessage {
    pub channel_id: u16,
    pub sequence: u32,
    pub log_time: u64,
    pub publish_time: u64,
    pub data: Vec<u8>,
}

/// What a transcoded frame adds to the output: the entry, the output topic it
/// belongs to, and whether its channel was registered for it.
#[derive(Clone, Debug)]
pub struct Written {
    pub topic: Vec<u8>,
    pub new_channel: bool,
    pub message: OutputMessage,
}

/// One video file to package at the end of the pass.
#[derive(Clone, Debug)]
pub struct VideoFile {
    pub file_name: Vec<u8>,
    pub track_name: Vec<u8>,
    pub width: u32,
    pub height: u32,
    pub h264: Vec<u8>,
}

/// The result of a pass: the output entries in order, the output channels and
/// the video files.
pub struct Transcoded {
    pub messages: Vec<Written>,
    pub channels: ChannelTable,
    pub videos: Vec<VideoFile>,
}

/// The state of a pass: the output channels and the per-topic encoders.
pub struct Transcoder {
    pub channels: ChannelTable,
    pub streams: TopicStreams,
    pub bitrate_bps: u32,
}

impl Transcoder {
    pub open spec fn wf(&self) -> bool {
        self.channels.wf() && self.streams.wf()
    }

    /// A pass that has seen nothing yet.
    pub fn new(bitrate_bps: u32) -> (r: Transcoder)
        ensures
            r.wf(),
            r.channels@ == Seq::<Seq<u8>>::empty(),
            r.streams@ == Seq::<StreamModel>::empty(),
            r.bitrate_bps == bitrate_bps,
    {
        Transcoder { channels: ChannelTable::new(), streams: TopicStreams::new(), bitrate_bps }
    }

    /// Transcodes one decoded frame of `topic` whose message had `header`: the
    /// frame goes through the encoder of the output topic (made for the
    /// frame's size on the topic's first frame), the access units that come
    /// out are appended to the topic's H.264 bytes and wrapped in an `h264`
    /// message with the same header, on the output topic's channel (registered
    /// on first use), at the log time of the header's stamp.
    pub fn process_frame(&mut self, topic: &[u8], header: &Header, frame: &RgbFrame) -> (r: Result<
        Written,
        TranscodeError,
    >)
        requires
            old(self).wf(),
            frame.wf(),
            header_encodable(header@),
        ensures
            final(self).wf(),
            final(self).bitrate_bps == old(self).bitrate_bps,
            ({
                let vt = topic@ + video_suffix();
                match r {
                    Ok(w) => frame_written(
                        old(self).channels@,
                        old(self).streams@,
                        final(self).channels@,
                        final(self).streams@,
                        w,
                        vt,
                        header@,
                        frame.width,
                        frame.height,
                    ),
                    Err(TranscodeError::DimensionMismatch { .. }) => final(self).channels@ == old(
                        self,
                    ).channels@ && final(self).streams@ == old(self).streams@,
                    Err(_) => final(self).channels@ == old(self).channels@,
                }
            }),
            r != Err::<Written, TranscodeError>(TranscodeError::DecodeError),
            frame_errors(old(self).channels@, old(self).streams@, topic@ + video_suffix(), frame.width, frame.height, r),
            r matches Err(TranscodeError::TooManyChannels) ==> old(self).channels@.len() == MAX_CHANNELS
                && !old(self).channels@.contains(topic@ + video_suffix()),
            r is Ok ==> frame.width > 0 && frame.height > 0 && frame.width % 2 == 0 && frame.height % 2
                == 0,
            ({
                let vt = topic@ + video_suffix();
                (exists|j: int|
                    0 <= j < old(self).streams@.len() && old(self).streams@[j].topic == vt && (old(
                        self,
                    ).streams@[j].width != frame.width || old(self).streams@[j].height
                        != frame.height)) <==> r matches Err(TranscodeError::DimensionMismatch { .. })
            }),
    {
        let vt = video_topic(topic);
        let ghost old_streams = self.streams@;
        proof {
            let vtv = vt@;
            if exists|j: int|
                0 <= j < old_streams.len() && old_streams[j].topic == vtv && old_streams[j].width
                    == frame.width && old_streams[j].height == frame.height {
                let j = choose|j: int|
                    0 <= j < old_streams.len() && old_streams[j].topic == vtv && old_streams[j].width
                        == frame.width && old_streams[j].height == frame.height;
                assert(has_topic(old_streams, vtv));
                assert forall|m: int| 0 <= m < old_streams.len() && old_streams[m].topic == vtv implies old_streams[m].width
                    == frame.width && old_streams[m].height == frame.height by {
                    if m != j {
                        if m < j {
                            assert(old_streams[m].topic != old_streams[j].topic);
                        } else {
                            assert(old_streams[j].topic != old_streams[m].topic);
                        }
                    }
                }
            }
        }
        let i = match self.streams.get_or_create(
            vt.as_slice(),
            frame.width,
            frame.height,
            self.bitrate_bps,
        ) {
            Ok(i) => i,
            Err(e) => {
                return Err(e);
            },
        };
        let ghost mid_streams = self.streams@;
        if self.channels.len() >= MAX_CHANNELS {
            if self.channels.lookup(vt.as_slice()).is_none() {
                return Err(TranscodeError::TooManyChannels);
            }
        }
        let units = match self.streams.encode(i, frame) {
            Ok(units) => units,
            Err(e) => {
                return Err(e);
            },
        };
        if units.len() as u64 >= 0x1_0000_0000u64 {
            return Err(TranscodeError::EncodeError);
        }
        let out = CompressedImage {
            header: header.clone_header(),
            format: vec![104u8, 50u8, 54u8, 52u8],
            data: units,
        };
        assert(out.format@ =~= h264_format());
        let data = out.to_bytes();
        let (channel_id, new_channel) = match self.channels.ensure_channel(vt.as_slice()) {
            Some(c) => c,
            None => {
                return Err(TranscodeError::TooManyChannels);
            },
        };
        let log_time = header.stamp.to_nanos();
        proof {
            crate::msg::lemma_compressed_image_round_trip(out@);
            let k = i as int;
            assert(self.streams@[k].topic == vt@);
            if !has_topic(old_streams, vt@) {
                assert(mid_streams[k].h264 =~= Seq::<u8>::empty());
                assert(mid_streams[k].h264 + out.data@ =~= out.data@);
                assert(self.streams@ =~= old_streams.push(
                    StreamModel {
                        topic: vt@,
                        width: frame.width,
                        height: frame.height,
                        h264: out.data@,
                    },
                ));
            }
        }
        let w = Written {
            topic: vt,
            new_channel,
            message: OutputMessage {
                channel_id,
                sequence: 0,
                log_time,
                publish_time: log_time,
                data,
            },
        };
        proof {
            reveal(frame_written);
            assert(written_units(w) == out.data@);
            assert(stream_step(
                old_streams,
                self.streams@,
                i as int,
                w.topic@,
                frame.width,
                frame.height,
                written_units(w),
            ));
        }
        Ok(w)
    }

    /// Handles one entry of the input log, on `topic`, of the schema named
    /// `schema_name`, with payload `payload`. An entry of another schema than
    /// `sensor_msgs/CompressedImage` is skipped and changes nothing. Otherwise
    /// the payload must be one compressed image message whose data is a still
    /// image (else `DecodeError`, changing nothing); that frame is then
    /// transcoded as `process_frame` does.
    pub fn process_entry(&mut self, topic: &[u8], schema_name: &[u8], payload: &[u8]) -> (r: Result<
        Option<Written>,
        TranscodeError,
    >)
        requires
            old(self).wf(),
        ensures
            final(self).wf(),
            final(self).bitrate_bps == old(self).bitrate_bps,
            schema_name@ != compressed_image_schema() ==> r == Ok::<Option<Written>, TranscodeError>(
                None,
            ) && final(self).channels@ == old(self).channels@ && final(self).streams@ == old(
                self,
            ).streams@,
            schema_name@ == compressed_image_schema() ==> match parse_compressed_image(payload@) {
                None => r == Err::<Option<Written>, TranscodeError>(TranscodeError::DecodeError)
                    && final(self).channels@ == old(self).channels@ && final(self).streams@ == old(
                    self,
                ).streams@,
                Some(m) => match decoded_still_size(m.data) {
                    None => r == Err::<Option<Written>, TranscodeError>(TranscodeError::DecodeError)
                        && final(self).channels@ == old(self).channels@ && final(self).streams@
                        == old(self).streams@,
                    Some((width, height)) => {
                        &&& r != Ok::<Option<Written>, TranscodeError>(None)
                        &&& r != Err::<Option<Written>, TranscodeError>(TranscodeError::DecodeError)
                        &&& (r matches Ok(Some(w)) ==> frame_written(
                            old(self).channels@,
                            old(self).streams@,
                            final(self).channels@,
                            final(self).streams@,
                            w,
                            topic@ + video_suffix(),
                            m.header,
                            width,
                            height,
                        ))
                        &&& (exists|j: int|
                            0 <= j < old(self).streams@.len() && old(self).streams@[j].topic
                                == topic@ + video_suffix() && (old(self).streams@[j].width != width
                                || old(self).streams@[j].height != height)) <==> (r matches Err(
                            TranscodeError::DimensionMismatch { .. },
                        ))
                        &&& (r matches Err(TranscodeError::DimensionMismatch { .. })
                            ==> final(self).channels@ == old(self).channels@
                            && final(self).streams@ == old(self).streams@)
                        &&& r is Err ==> final(self).channels@ == old(self).channels@
                        &&& frame_errors(
                            old(self).channels@,
                            old(self).streams@,
                            topic@ + video_suffix(),
                            width,
                            height,
                            r,
                        )
                    },
                },
            },
    {
        if !is_compressed_image_schema(schema_name) {
            return Ok(None);
        }
        let msg = match CompressedImage::from_bytes(payload) {
            Some(m) => m,
            None => {
                proof {
                    if parse_compressed_image(payload@) is Some {
                        crate::msg::lemma_compressed_image_parsed_bytes(payload@);
                    }
                }
                return Err(TranscodeError::DecodeError);
            },
        };
        proof {
            crate::msg::lemma_compressed_image_round_trip(msg@);
        }
        let frame = match decode_still(msg.data.as_slice()) {
            Ok(f) => f,
            Err(_) => {
                return Err(TranscodeError::DecodeError);
            },
        };
        match self.process_frame(topic, &msg.header, &frame) {
            Ok(w) => Ok(Some(w)),
            Err(e) => Err(e),
        }
    }

    /// Ends the pass: for each topic's stream, in the order the topics were
    /// first seen, the video file to package, named from the topic, with the
    /// topic's frame size and all the H.264 bytes produced for it.
    pub fn finish(&self) -> (r: Vec<VideoFile>)
        ensures
            r@.len() == self.streams@.len(),
            forall|i: int|
                0 <= i < r@.len() ==> {
                    let s = #[trigger] self.streams@[i];
                    &&& r@[i].file_name@ == video_file_name(s.topic)
                    &&& r@[i].track_name@ == s.topic
                    &&& r@[i].width == s.width
                    &&& r@[i].height == s.height
                    &&& r@[i].h264@ == s.h264
                },
    {
        let mut r: Vec<VideoFile> = Vec::new();
        let mut i: usize = 0;
        while i < self.streams.len()
            invariant
                i <= self.streams@.len(),
                r@.len() == i,
                forall|k: int|
                    0 <= k < i ==> {
                        let s = #[trigger] self.streams@[k];
                        &&& r@[k].file_name@ == video_file_name(s.topic)
                        &&& r@[k].track_name@ == s.topic
                        &&& r@[k].width == s.width
                        &&& r@[k].height == s.height
                        &&& r@[k].h264@ == s.h264
                    },
            decreases self.streams@.len() - i,
        {
            let (topic, width, height, h264) = self.streams.get(i);
            r.push(
                VideoFile {
                    file_name: video_file_name_of(topic),
                    track_name: bytes_of(topic),
                    width,
                    height,
                    h264: bytes_of(h264),
                },
            );
            i = i + 1;
        }
        r
    }
}

/// The size of the still image in a transcoded entry.
pub open spec fn entry_size(e: EntryModel) -> Option<(u32, u32)> {
    decoded_still_size(parse_compressed_image(e.payload)->Some_0.data)
}

/// Whether some output entry of `ws` belongs to the output topic `t`.
pub open spec fn topic_written(ws: Seq<Written>, t: Seq<u8>) -> bool {
    exists|k: int| 0 <= k < ws.len() && (#[trigger] ws[k]).topic@ == t
}

/// The channels `ch` are those of the output topics of `ws`, and an output
/// entry is flagged as registering its channel exactly where it is the first
/// of its topic.
pub open spec fn channels_follow(ws: Seq<Written>, ch: Seq<Seq<u8>>) -> bool {
    &&& forall|c: int| 0 <= c < ch.len() ==> #[trigger] topic_written(ws, ch[c])
    &&& forall|k: int|
        0 <= k < ws.len() ==> ((#[trigger] ws[k]).new_channel <==> !topic_written(
            ws.take(k),
            ws[k].topic@,
        ))
}

proof fn lemma_stream_step_keeps(
    os: Seq<StreamModel>,
    ns: Seq<StreamModel>,
    k: int,
    vt: Seq<u8>,
    width: u32,
    height: u32,
    units: Seq<u8>,
)
    requires
        stream_step(os, ns, k, vt, width, height, units),
    ensures
        os.len() <= ns.len(),
        forall|j: int|
            0 <= j < os.len() ==> (#[trigger] ns[j]).topic == os[j].topic && ns[j].width
                == os[j].width && ns[j].height == os[j].height,
{
    assert forall|j: int| 0 <= j < os.len() implies (#[trigger] ns[j]).topic == os[j].topic
        && ns[j].width == os[j].width && ns[j].height == os[j].height by {
        if has_topic(os, vt) {
            let v = StreamModel { h264: os[k].h264 + units, ..os[k] };
            assert(ns == os.update(k, v));
            assert(ns.len() == os.len());
            if j == k {
                assert(ns[j] == v);
            } else {
                assert(ns[j] == os.update(k, v)[j]);
            }
        } else {
            let v = StreamModel { topic: vt, width, height, h264: units };
            assert(ns == os.push(v));
            assert(ns[j] == os.push(v)[j]);
        }
    }
}

/// The access units written for the output topic `topic`, in write order,
/// concatenated.
pub open spec fn units_of(ws: Seq<Written>, topic: Seq<u8>) -> Seq<u8>
    decreases ws.len(),
{
    if ws.len() == 0 {
        Seq::empty()
    } else {
        units_of(ws.drop_last(), topic) + if ws.last().topic@ == topic {
            written_units(ws.last())
        } else {
            Seq::empty()
        }
    }
}

proof fn lemma_units_of_push(ws: Seq<Written>, w: Written, topic: Seq<u8>)
    ensures
        units_of(ws.push(w), topic) == units_of(ws, topic) + if w.topic@ == topic {
            written_units(w)
        } else {
            Seq::empty()
        },
{
    assert(ws.push(w).drop_last() =~= ws);
}

proof fn lemma_units_of_absent(ws: Seq<Written>, topic: Seq<u8>)
    requires
        !topic_written(ws, topic),
    ensures
        units_of(ws, topic) == Seq::<u8>::empty(),
    decreases ws.len(),
{
    if ws.len() > 0 {
        let d = ws.drop_last();
        if topic_written(d, topic) {
            let k = choose|k: int| 0 <= k < d.len() && (#[trigger] d[k]).topic@ == topic;
            assert(ws[k] == d[k]);
        }
        lemma_units_of_absent(d, topic);
        assert(ws[ws.len() - 1].topic@ != topic);
        assert(units_of(ws, topic) =~= Seq::<u8>::empty());
    }
}

proof fn lemma_stream_step_units(
    os: Seq<StreamModel>,
    ns: Seq<StreamModel>,
    k: int,
    vt: Seq<u8>,
    width: u32,
    height: u32,
    units: Seq<u8>,
)
    requires
        stream_step(os, ns, k, vt, width, height, units),
    ensures
        forall|j: int| 0 <= j < os.len() && j != k ==> #[trigger] ns[j] == os[j],
        ns[k].h264 == if has_topic(os, vt) { os[k].h264 + units } else { units },
        has_topic(os, vt) ==> ns.len() == os.len(),
        !has_topic(os, vt) ==> k == os.len() && ns.len() == os.len() + 1,
{
}

/// Whether the streams `st` hold a stream of topic `t` made for `size`.
pub open spec fn stream_fits(st: Seq<StreamModel>, t: Seq<u8>, size: Option<(u32, u32)>) -> bool {
    match size {
        Some((w, h)) => exists|j: int|
            0 <= j < st.len() && (#[trigger] st[j]).topic == t && st[j].width == w && st[j].height
                == h,
        None => false,
    }
}

/// The output of a pass over the transcoded entries `sel`: the output entries
/// follow `sel` one for one, every one on a channel of the table; the table
/// holds one channel per output topic, each registered by its topic's first
/// entry; and each video file is named from its track, the output topic.
pub open spec fn pass_output(out: Transcoded, sel: Seq<EntryModel>) -> bool {
    &&& out.channels.wf()
    &&& outputs_follow(out.messages@, sel, out.channels@)
    &&& channels_follow(out.messages@, out.channels@)
    &&& forall|a: int, b: int|
        0 <= a < out.messages@.len() && 0 <= b < out.messages@.len() && (
        #[trigger] out.messages@[a]).topic@ == (#[trigger] out.messages@[b]).topic@ ==> entry_size(
            sel[a],
        ) == entry_size(sel[b])
    &&& out.videos@.len() == out.channels@.len()
    &&& forall|c: int|
        0 <= c < out.videos@.len() ==> (#[trigger] out.videos@[c]).h264@ == units_of(
            out.messages@,
            out.channels@[c],
        )
    &&& forall|c: int|
        0 <= c < out.videos@.len() ==> (#[trigger] out.videos@[c]).track_name@ == out.channels@[c]
            && out.videos@[c].file_name@ == video_file_name(out.channels@[c])
    &&& forall|k: int|
        0 <= k < out.messages@.len() ==> entry_size(sel[k]) == Some(
            (
                out.videos@[(#[trigger] out.messages@[k]).message.channel_id as int].width,
                out.videos@[out.messages@[k].message.channel_id as int].height,
            ),
        )
}

/// Transcodes the entries of a recording in one pass: every entry of the
/// `sensor_msgs/CompressedImage` schema, in stored order, becomes one output
/// entry (see `process_entry`), and each output topic one channel and one
/// video file; other entries are skipped. Stops at the first failure.
#[verifier::rlimit(100)]
pub fn transcode_recording(entries: &Vec<LogEntry>, bitrate_bps: u32) -> (r: Result<
    Transcoded,
    TranscodeError,
>)
    ensures
        ({
            let sel = selected(entries@.map_values(|e: LogEntry| e@));
            &&& sel.len() == 0 ==> (r matches Ok(out) && out.messages@.len() == 0
                && out.channels@.len() == 0 && out.videos@.len() == 0)
            &&& sel.len() > 0 && (parse_compressed_image(sel[0].payload) is None || entry_size(
                sel[0],
            ) is None) ==> r == Err::<Transcoded, TranscodeError>(TranscodeError::DecodeError)
            &&& (r matches Ok(out) ==> pass_output(out, sel))
            &&& (r == Err::<Transcoded, TranscodeError>(TranscodeError::DecodeError) ==> !all_decode(sel))
            &&& ((r matches Err(TranscodeError::DimensionMismatch { .. })) ==> size_changes(sel))
        }),
{
    let ghost models = entries@.map_values(|e: LogEntry| e@);
    let mut t = Transcoder::new(bitrate_bps);
    let mut ws: Vec<Written> = Vec::new();
    let no_schema: Vec<u8> = Vec::new();
    let mut i: usize = 0;
    proof {
        assert(models.take(0).filter(|e: EntryModel| is_selected(e)) =~= Seq::<EntryModel>::empty());
    }
    while i < entries.len()
        invariant
            i <= entries@.len(),
            models == entries@.map_values(|e: LogEntry| e@),
            no_schema@.len() == 0,
            t.wf(),
            outputs_follow(ws@, selected(models.take(i as int)), t.channels@),
            channels_follow(ws@, t.channels@),
            t.streams@.len() == t.channels@.len(),
            forall|c: int| 0 <= c < t.channels@.len() ==> #[trigger] t.streams@[c].topic == t.channels@[c],
            forall|c: int| 0 <= c < t.channels@.len() ==> #[trigger] t.streams@[c].h264 == units_of(ws@, t.channels@[c]),
            forall|k: int|
                0 <= k < ws@.len() ==> stream_fits(
                    t.streams@,
                    (#[trigger] ws@[k]).topic@,
                    entry_size(selected(models.take(i as int))[k]),
                ),
            selected(models.take(i as int)).len() == 0 ==> t.channels@.len() == 0
                && t.streams@.len() == 0,
            selected(models.take(i as int)).len() > 0 ==> parse_compressed_image(
                selected(models.take(i as int))[0].payload,
            ) is Some && entry_size(selected(models.take(i as int))[0]) is Some,
        decreases entries@.len() - i,
    {
        let e = &entries[i];
        let schema_name = match &e.schema_name {
            Some(n) => n.as_slice(),
            None => no_schema.as_slice(),
        };
        let ghost before = t.channels@;
        let ghost os = t.streams@;
        let ghost prev = ws@;
        let ghost sel = selected(models.take(i as int));
        let r = t.process_entry(e.topic.as_slice(), schema_name, e.payload.as_slice());
        proof {
            assert(models.take(i as int + 1) == models.take(i as int).push(models[i as int]));
            models.take(i as int).lemma_filter_push(models[i as int], |e: EntryModel| is_selected(e));
            assert(models[i as int] == e@);
            assert(compressed_image_schema().len() == 27);
        }
        match r {
            Ok(Some(w)) => {
                ws.push(w);
                proof {
                    reveal(frame_written);
                    assert(schema_name@ == compressed_image_schema());
                    assert(is_selected(models[i as int]));
                    let sel2 = selected(models.take(i as int + 1));
                    assert(sel2 == sel.push(e@));
                    assert(sel2[0] == if sel.len() == 0 { e@ } else { sel[0] });
                    assert forall|k: int| 0 <= k < prev.len() implies output_follows(
                        #[trigger] prev[k],
                        sel[k],
                        t.channels@,
                    ) by {
                        assert(before.len() <= t.channels@.len());
                        assert(output_follows(prev[k], sel[k], before));
                        assert(t.channels@[prev[k].message.channel_id as int]
                            == before[prev[k].message.channel_id as int]);
                    }
                    assert forall|k: int| 0 <= k < ws@.len() implies output_follows(
                        #[trigger] ws@[k],
                        sel2[k],
                        t.channels@,
                    ) by {
                        if k < prev.len() {
                            assert(ws@[k] == prev[k]);
                        }
                    }
                    assert(outputs_follow(ws@, sel2, t.channels@));
                    let vt = w.topic@;
                    let n = prev.len() as int;
                    assert(before.contains(vt) <==> topic_written(prev, vt)) by {
                        if before.contains(vt) {
                            let c = choose|c: int| 0 <= c < before.len() && before[c] == vt;
                            assert(topic_written(prev, before[c]));
                        }
                        if topic_written(prev, vt) {
                            let k = choose|k: int| 0 <= k < prev.len() && (#[trigger] prev[k]).topic@ == vt;
                            assert(output_follows(prev[k], sel[k], before));
                            assert(before[prev[k].message.channel_id as int] == vt);
                        }
                    }
                    assert forall|c: int| 0 <= c < t.channels@.len() implies #[trigger] topic_written(
                        ws@,
                        t.channels@[c],
                    ) by {
                        if c < before.len() {
                            assert(t.channels@[c] == before[c]);
                            assert(topic_written(prev, before[c]));
                            let k = choose|k: int| 0 <= k < prev.len() && (#[trigger] prev[k]).topic@ == before[c];
                            assert(ws@[k] == prev[k]);
                        } else {
                            assert(ws@[n] == w);
                        }
                    }
                    let (width, height) = entry_size(e@)->Some_0;
                    let ks = choose|ks: int| stream_step(os, t.streams@, ks, vt, width, height, written_units(w));
                    lemma_stream_step_keeps(os, t.streams@, ks, vt, width, height, written_units(w));
                    assert(has_topic(os, vt) == before.contains(vt)) by {
                        if before.contains(vt) {
                            let c = choose|c: int| 0 <= c < before.len() && before[c] == vt;
                            assert(os[c].topic == before[c]);
                        }
                        if has_topic(os, vt) {
                            let j = choose|j: int| 0 <= j < os.len() && os[j].topic == vt;
                            assert(os[j].topic == before[j]);
                        }
                    }
                    assert forall|c: int| 0 <= c < t.channels@.len() implies #[trigger] t.streams@[c].topic
                        == t.channels@[c] by {
                        if c < before.len() {
                            assert(os[c].topic == before[c]);
                            if !before.contains(vt) {
                                assert(t.channels@[c] == before[c]);
                            }
                        } else {
                            assert(t.streams@[ks].topic == vt);
                        }
                    }
                    assert forall|k: int| 0 <= k < ws@.len() implies stream_fits(
                        t.streams@,
                        (#[trigger] ws@[k]).topic@,
                        entry_size(sel2[k]),
                    ) by {
                        if k < n {
                            assert(ws@[k] == prev[k] && sel2[k] == sel[k]);
                            assert(stream_fits(os, prev[k].topic@, entry_size(sel[k])));
                            let (w0, h0) = entry_size(sel[k])->Some_0;
                            let j = choose|j: int| 0 <= j < os.len() && (#[trigger] os[j]).topic == prev[k].topic@ && os[j].width == w0 && os[j].height == h0;
                            assert(t.streams@[j].topic == os[j].topic);
                        } else {
                            assert(ws@[k] == w && sel2[k] == e@);
                            assert(t.streams@[ks].topic == vt);
                        }
                    }
                    lemma_stream_step_units(os, t.streams@, ks, vt, width, height, written_units(w));
                    let id = w.message.channel_id as int;
                    assert(ks == id) by {
                        assert(t.streams@[id].topic == t.channels@[id]);
                        if ks != id {
                            if ks < id {
                                assert(t.streams@[ks].topic != t.streams@[id].topic);
                            } else {
                                assert(t.streams@[id].topic != t.streams@[ks].topic);
                            }
                        }
                    }
                    if !before.contains(vt) {
                        lemma_units_of_absent(prev, vt);
                    }
                    assert forall|c: int| 0 <= c < t.channels@.len() implies #[trigger] t.streams@[c].h264
                        == units_of(ws@, t.channels@[c]) by {
                        lemma_units_of_push(prev, w, t.channels@[c]);
                        if c == id {
                            if before.contains(vt) {
                                assert(os[c].h264 == units_of(prev, before[c]));
                            } else {
                                assert(units_of(prev, vt) + written_units(w) =~= written_units(w));
                            }
                        } else {
                            assert(t.channels@[c] != t.channels@[id]);
                            assert(c < before.len());
                            assert(t.channels@[c] == before[c]);
                            assert(os[c].h264 == units_of(prev, before[c]));
                            assert(units_of(prev, before[c]) + Seq::<u8>::empty() =~= units_of(prev, before[c]));
                        }
                    }
                    assert forall|k: int| 0 <= k < ws@.len() implies ((#[trigger] ws@[k]).new_channel
                        <==> !topic_written(ws@.take(k), ws@[k].topic@)) by {
                        if k < n {
                            assert(ws@.take(k) =~= prev.take(k));
                            assert(ws@[k] == prev[k]);
                        } else {
                            assert(ws@.take(k) =~= prev);
                        }
                    }
                }
            },
            Ok(None) => {
                proof {
                    assert(schema_name@ != compressed_image_schema());
                    assert(!is_selected(models[i as int]));
                    assert(selected(models.take(i as int + 1)) == sel);
                    assert(outputs_follow(ws@, selected(models.take(i as int + 1)), t.channels@));
                    assert(channels_follow(ws@, t.channels@));
                    assert(t.streams@ == os);
                }
            },
            Err(err) => {
                proof {
                    lemma_selected_prefix(models, i as int + 1);
                    if is_selected(e@) {
                        assert(selected(models.take(i as int + 1)) == sel.push(e@));
                        assert(selected(models.take(i as int + 1))[0] == if sel.len() == 0 { e@ } else { sel[0] });
                    } else {
                        assert(schema_name@ != compressed_image_schema());
                    }
                    lemma_selected_prefix(models, i as int);
                    lemma_selected_prefix_all(models, i as int + 1);
                    let full = selected(models);
                    if is_selected(e@) {
                        let sp = sel.push(e@);
                        let m = sel.len() as int;
                        assert(full[m] == sp[m]);
                        if err == TranscodeError::DecodeError {
                            assert(!(parse_compressed_image(full[m].payload) is Some && entry_size(full[m]) is Some));
                        }
                        if err matches TranscodeError::DimensionMismatch { .. } {
                            let (width, height) = entry_size(e@)->Some_0;
                            let vt = e@.topic + video_suffix();
                            let j = choose|j: int|
                                0 <= j < os.len() && os[j].topic == vt && (os[j].width != width
                                    || os[j].height != height);
                            lemma_size_change(prev, sel, before, os, e@, j);
                            let (a, b) = choose|a: int, b: int|
                                0 <= a < b < sp.len() && (#[trigger] sp[a]).topic == (#[trigger] sp[b]).topic
                                    && entry_size(sp[a]) != entry_size(sp[b]);
                            assert(full[a] == sp[a] && full[b] == sp[b]);
                            assert(full[a].topic == full[b].topic && entry_size(full[a]) != entry_size(full[b]));
                        }
                    }
                }
                return Err(err);
            },
        }
        i = i + 1;
    }
    proof {
        assert(models.take(entries@.len() as int) =~= models);
    }
    let videos = t.finish();
    let out = Transcoded { messages: ws, channels: t.channels, videos };
    proof {
        lemma_selected_prefix(models, entries@.len() as int);
        assert forall|c: int| 0 <= c < out.videos@.len() implies (#[trigger] out.videos@[c]).file_name@
            == video_file_name(out.videos@[c].track_name@) by {
            assert(out.videos@[c].track_name@ == t.streams@[c].topic);
        }
        let ws_ = out.messages@;
        let sel_ = selected(models);
        assert(selected(models.take(entries@.len() as int)) == sel_);
        assert forall|a: int, b: int|
            0 <= a < ws_.len() && 0 <= b < ws_.len() && (#[trigger] ws_[a]).topic@ == (
            #[trigger] ws_[b]).topic@ implies entry_size(sel_[a]) == entry_size(sel_[b]) by {
            assert(stream_fits(t.streams@, ws_[a].topic@, entry_size(sel_[a])));
            assert(stream_fits(t.streams@, ws_[b].topic@, entry_size(sel_[b])));
            let (wa, ha) = entry_size(sel_[a])->Some_0;
            let (wb, hb) = entry_size(sel_[b])->Some_0;
            let ja = choose|j: int| 0 <= j < t.streams@.len() && (#[trigger] t.streams@[j]).topic == ws_[a].topic@ && t.streams@[j].width == wa && t.streams@[j].height == ha;
            let jb = choose|j: int| 0 <= j < t.streams@.len() && (#[trigger] t.streams@[j]).topic == ws_[b].topic@ && t.streams@[j].width == wb && t.streams@[j].height == hb;
            if ja != jb {
                if ja < jb {
                    assert(t.streams@[ja].topic != t.streams@[jb].topic);
                } else {
                    assert(t.streams@[jb].topic != t.streams@[ja].topic);
                }
            }
        }
        assert forall|c: int| 0 <= c < out.videos@.len() implies (#[trigger] out.videos@[c]).h264@
            == units_of(out.messages@, out.channels@[c]) by {
            assert(t.streams@[c].h264 == units_of(ws_, t.channels@[c]));
        }
        assert forall|c: int| 0 <= c < out.videos@.len() implies (#[trigger] out.videos@[c]).track_name@
            == out.channels@[c] && out.videos@[c].file_name@ == video_file_name(out.channels@[c]) by {
            assert(t.streams@[c].topic == out.channels@[c]);
        }
        assert forall|k: int| 0 <= k < ws_.len() implies entry_size(sel_[k]) == Some(
            (
                out.videos@[(#[trigger] ws_[k]).message.channel_id as int].width,
                out.videos@[ws_[k].message.channel_id as int].height,
            ),
        ) by {
            let c = ws_[k].message.channel_id as int;
            assert(output_follows(ws_[k], sel_[k], out.channels@));
            assert(stream_fits(t.streams@, ws_[k].topic@, entry_size(sel_[k])));
            let (wk, hk) = entry_size(sel_[k])->Some_0;
            let j = choose|j: int| 0 <= j < t.streams@.len() && (#[trigger] t.streams@[j]).topic == ws_[k].topic@ && t.streams@[j].width == wk && t.streams@[j].height == hk;
            assert(t.streams@[c].topic == out.channels@[c]);
            if j != c {
                if j < c {
                    assert(t.streams@[j].topic != t.streams@[c].topic);
                } else {
                    assert(t.streams@[c].topic != t.streams@[j].topic);
                }
            }
        }
        assert(pass_output(out, selected(models)));
    }
    Ok(out)
}

/// Whether every entry of `sel` is a compressed image message holding a
/// decodable still image.
pub open spec fn all_decode(sel: Seq<EntryModel>) -> bool {
    forall|k: int|
        0 <= k < sel.len() ==> parse_compressed_image((#[trigger] sel[k]).payload) is Some
            && entry_size(sel[k]) is Some
}

/// Whether two entries of `sel` on one topic hold images of different sizes.
pub open spec fn size_changes(sel: Seq<EntryModel>) -> bool {
    exists|a: int, b: int|
        0 <= a < b < sel.len() && (#[trigger] sel[a]).topic == (#[trigger] sel[b]).topic
            && entry_size(sel[a]) != entry_size(sel[b])
}

proof fn lemma_suffix_cancel(a: Seq<u8>, b: Seq<u8>, s: Seq<u8>)
    requires
        a + s == b + s,
    ensures
        a == b,
{
    assert((a + s).len() == (b + s).len());
    assert(a =~= (a + s).subrange(0, a.len() as int));
    assert(b =~= (b + s).subrange(0, b.len() as int));
}

proof fn lemma_size_change(
    prev: Seq<Written>,
    sel: Seq<EntryModel>,
    oc: Seq<Seq<u8>>,
    os: Seq<StreamModel>,
    e: EntryModel,
    j: int,
)
    requires
        outputs_follow(prev, sel, oc),
        channels_follow(prev, oc),
        os.len() == oc.len(),
        forall|c: int| 0 <= c < oc.len() ==> #[trigger] os[c].topic == oc[c],
        forall|k: int|
            0 <= k < prev.len() ==> stream_fits(os, (#[trigger] prev[k]).topic@, entry_size(sel[k])),
        forall|a: int, b: int| 0 <= a < b < os.len() ==> #[trigger] os[a].topic != #[trigger] os[b].topic,
        0 <= j < os.len(),
        os[j].topic == e.topic + video_suffix(),
        entry_size(e) != Some((os[j].width, os[j].height)),
    ensures
        size_changes(sel.push(e)),
{
    let vt = e.topic + video_suffix();
    assert(os[j].topic == oc[j]);
    assert(topic_written(prev, oc[j]));
    let k = choose|k: int| 0 <= k < prev.len() && (#[trigger] prev[k]).topic@ == oc[j];
    assert(output_follows(prev[k], sel[k], oc));
    assert(stream_fits(os, prev[k].topic@, entry_size(sel[k])));
    let (wk, hk) = entry_size(sel[k])->Some_0;
    let j2 = choose|j2: int| 0 <= j2 < os.len() && (#[trigger] os[j2]).topic == prev[k].topic@ && os[j2].width == wk && os[j2].height == hk;
    if j2 != j {
        if j2 < j {
            assert(os[j2].topic != os[j].topic);
        } else {
            assert(os[j].topic != os[j2].topic);
        }
    }
    lemma_suffix_cancel(sel[k].topic, e.topic, video_suffix());
    let sp = sel.push(e);
    assert(sp[k] == sel[k] && sp[sel.len() as int] == e);
    assert(sp[k].topic == sp[sel.len() as int].topic && entry_size(sp[k]) != entry_size(sp[sel.len() as int]));
}

/// A topic none of whose entries is transcoded gets no channel in the output
/// of a pass.
pub proof fn lemma_skipped_topic_has_no_channel(out: Transcoded, sel: Seq<EntryModel>, topic: Seq<u8>)
    requires
        pass_output(out, sel),
        forall|k: int| 0 <= k < sel.len() ==> (#[trigger] sel[k]).topic != topic,
    ensures
        !out.channels@.contains(topic + video_suffix()),
{
    let ws = out.messages@;
    let ch = out.channels@;
    if ch.contains(topic + video_suffix()) {
        let c = choose|c: int| 0 <= c < ch.len() && ch[c] == topic + video_suffix();
        assert(topic_written(ws, ch[c]));
        let k = choose|k: int| 0 <= k < ws.len() && (#[trigger] ws[k]).topic@ == ch[c];
        assert(output_follows(ws[k], sel[k], ch));
        lemma_suffix_cancel(sel[k].topic, topic, video_suffix());
    }
}

/// Where every transcoded entry of a pass is on one topic, and there is at
/// least one, the output has exactly one channel, that topic followed by
/// `_video`, with identifier 0, and every output entry is on it.
pub proof fn lemma_one_topic_one_channel(out: Transcoded, sel: Seq<EntryModel>, topic: Seq<u8>)
    requires
        pass_output(out, sel),
        sel.len() > 0,
        forall|k: int| 0 <= k < sel.len() ==> (#[trigger] sel[k]).topic == topic,
    ensures
        out.channels@ == seq![topic + video_suffix()],
        forall|k: int| 0 <= k < out.messages@.len() ==> (#[trigger] out.messages@[k]).message.channel_id == 0,
{
    let ws = out.messages@;
    let ch = out.channels@;
    let vt = topic + video_suffix();
    assert forall|c: int| 0 <= c < ch.len() implies #[trigger] ch[c] == vt by {
        assert(topic_written(ws, ch[c]));
        let k = choose|k: int| 0 <= k < ws.len() && (#[trigger] ws[k]).topic@ == ch[c];
        assert(output_follows(ws[k], sel[k], ch));
    }
    assert(output_follows(ws[0], sel[0], ch));
    if ch.len() > 1 {
        assert(ch[0] == ch[1]);
    }
    assert(ch =~= seq![vt]);
    assert forall|k: int| 0 <= k < ws.len() implies (#[trigger] ws[k]).message.channel_id == 0 by {
        assert(output_follows(ws[k], sel[k], ch));
    }
}

proof fn lemma_selected_prefix_all(s: Seq<EntryModel>, n: int)
    requires
        0 <= n <= s.len(),
    ensures
        selected(s.take(n)).len() <= selected(s).len(),
        forall|k: int| 0 <= k < selected(s.take(n)).len() ==> selected(s)[k] == #[trigger] selected(s.take(n))[k],
    decreases s.len() - n,
{
    if n < s.len() {
        lemma_selected_prefix_all(s, n + 1);
        assert(s.take(n + 1) == s.take(n).push(s[n]));
        s.take(n).lemma_filter_push(s[n], |e: EntryModel| is_selected(e));
        assert forall|k: int| 0 <= k < selected(s.take(n)).len() implies selected(s)[k] == #[trigger] selected(s.take(n))[k] by {
            assert(selected(s.take(n + 1))[k] == selected(s.take(n))[k]);
        }
    } else {
        assert(s.take(n) =~= s);
    }
}

proof fn lemma_selected_prefix(s: Seq<EntryModel>, n: int)
    requires
        0 <= n <= s.len(),
    ensures
        selected(s.take(n)).len() > 0 ==> selected(s).len() > 0 && selected(s)[0] == selected(
            s.take(n),
        )[0],
    decreases s.len() - n,
{
    if n < s.len() {
        lemma_selected_prefix(s, n + 1);
        assert(s.take(n + 1) == s.take(n).push(s[n]));
        s.take(n).lemma_filter_push(s[n], |e: EntryModel| is_selected(e));
        if selected(s.take(n)).len() > 0 {
            assert(selected(s.take(n + 1))[0] == selected(s.take(n))[0]);
        }
    } else {
        assert(s.take(n) =~= s);
    }
}
} // verus!
