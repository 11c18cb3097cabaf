//! The image messages: their models, their encoding and their decoding.
use vstd::prelude::*;
use crate::wire::{
    push_field, push_u32, read_field, read_u32,
    field, le_u32_at, lemma_field_bytes, lemma_lengths, lemma_parse_field_span, lemma_read_field,
    lemma_read_u32, lemma_value_bytes, parse_field, u32_le,
};

verus! {

/// A point in time: seconds and nanoseconds.
#[derive(Clone, Copy, Debug, PartialEq, Eq, Structural)]
pub struct Stamp {
    pub secs: u32,
    pub nsecs: u32,
}

/// The nanoseconds since the epoch that a stamp stands for.
pub open spec fn stamp_nanos(s: Stamp) -> nat {
    s.secs as nat * 1_000_000_000 + s.nsecs as nat
}

/// Whether `a` comes no later than `b`, read as seconds then nanoseconds.
pub open spec fn stamp_le(a: Stamp, b: Stamp) -> bool {
    a.secs < b.secs || (a.secs == b.secs && a.nsecs <= b.nsecs)
}

impl Stamp {
    /// The stamp as a count of nanoseconds.
    pub fn to_nanos(&self) -> (r: u64)
        ensures
            r == stamp_nanos(*self),
    {
        self.secs as u64 * 1_000_000_000 + self.nsecs as u64
    }
}

/// Stamps in order, each with fewer than a second of nanoseconds, give log
/// times in order.
pub proof fn lemma_log_times_ordered(stamps: Seq<Stamp>)
    requires
        forall|i: int| 0 <= i < stamps.len() ==> #[trigger] stamps[i].nsecs < 1_000_000_000,
        forall|i: int, j: int| 0 <= i < j < stamps.len() ==> stamp_le(#[trigger] stamps[i], #[trigger] stamps[j]),
    ensures
        forall|i: int, j: int|
            0 <= i < j < stamps.len() ==> stamp_nanos(#[trigger] stamps[i]) <= stamp_nanos(#[trigger] stamps[j]),
{
    assert forall|i: int, j: int| 0 <= i < j < stamps.len() implies stamp_nanos(
        #[trigger] stamps[i],
    ) <= stamp_nanos(#[trigger] stamps[j]) by {
        let (a, b) = (stamps[i], stamps[j]);
        if a.secs < b.secs {
            assert(a.secs as nat * 1_000_000_000 + 1_000_000_000 <= b.secs as nat * 1_000_000_000)
                by (nonlinear_arith)
                requires
                    a.secs < b.secs,
            ;
        }
    }
}

/// The header of a message: sequence number, time stamp and frame name.
#[derive(Clone, Debug)]
pub struct Header {
    pub seq: u32,
    pub stamp: Stamp,
    pub frame_id: Vec<u8>,
}

/// A compressed image (or compressed video chunk): header, format tag, payload.
#[derive(Clone, Debug)]
pub struct CompressedImage {
    pub header: Header,
    pub format: Vec<u8>,
    pub data: Vec<u8>,
}

/// A raw image: header, size, pixel encoding, row length in bytes and pixels.
#[derive(Clone, Debug)]
pub struct Image {
    pub header: Header,
    pub height: u32,
    pub width: u32,
    pub encoding: Vec<u8>,
    pub is_bigendian: u8,
    pub step: u32,
    pub data: Vec<u8>,
}

pub struct HeaderModel {
    pub seq: u32,
    pub stamp: Stamp,
    pub frame_id: Seq<u8>,
}

pub struct CompressedImageModel {
    pub header: HeaderModel,
    pub format: Seq<u8>,
    pub data: Seq<u8>,
}

pub struct ImageModel {
    pub header: HeaderModel,
    pub height: u32,
    pub width: u32,
    pub encoding: Seq<u8>,
    pub is_bigendian: u8,
    pub step: u32,
    pub data: Seq<u8>,
}

impl View for Header {
    type V = HeaderModel;

    open spec fn view(&self) -> HeaderModel {
        HeaderModel { seq: self.seq, stamp: self.stamp, frame_id: self.frame_id@ }
    }
}

impl View for CompressedImage {
    type V = CompressedImageModel;

    open spec fn view(&self) -> CompressedImageModel {
        CompressedImageModel { header: self.header@, format: self.format@, data: self.data@ }
    }
}

impl View for Image {
    type V = ImageModel;

    open spec fn view(&self) -> ImageModel {
        ImageModel {
            header: self.header@,
            height: self.height,
            width: self.width,
            encoding: self.encoding@,
            is_bigendian: self.is_bigendian,
            step: self.step,
            data: self.data@,
        }
    }
}

pub open spec fn fits_field(b: Seq<u8>) -> bool {
    b.len() < 0x1_0000_0000
}

pub open spec fn header_encodable(h: HeaderModel) -> bool {
    fits_field(h.frame_id)
}

pub open spec fn compressed_image_encodable(m: CompressedImageModel) -> bool {
    header_encodable(m.header) && fits_field(m.format) && fits_field(m.data)
}

pub open spec fn image_encodable(m: ImageModel) -> bool {
    header_encodable(m.header) && fits_field(m.encoding) && fits_field(m.data)
}

/// The wire bytes of a header.
pub open spec fn header_bytes(h: HeaderModel) -> Seq<u8> {
    u32_le(h.seq) + u32_le(h.stamp.secs) + u32_le(h.stamp.nsecs) + field(h.frame_id)
}

/// The wire bytes of a compressed image.
pub open spec fn compressed_image_bytes(m: CompressedImageModel) -> Seq<u8> {
    header_bytes(m.header) + field(m.format) + field(m.data)
}

/// The wire bytes of a raw image.
pub open spec fn image_bytes(m: ImageModel) -> Seq<u8> {
    header_bytes(m.header) + u32_le(m.height) + u32_le(m.width) + field(m.encoding) + seq![
        m.is_bigendian,
    ] + u32_le(m.step) + field(m.data)
}

/// The header that starts at `pos`, and the position after it.
pub open spec fn parse_header(s: Seq<u8>, pos: int) -> Option<(HeaderModel, int)> {
    if 0 <= pos && pos + 12 <= s.len() {
        match parse_field(s, pos + 12) {
            Some((frame_id, end)) => Some(
                (
                    HeaderModel {
                        seq: le_u32_at(s, pos) as u32,
                        stamp: Stamp {
                            secs: le_u32_at(s, pos + 4) as u32,
                            nsecs: le_u32_at(s, pos + 8) as u32,
                        },
                        frame_id,
                    },
                    end,
                ),
            ),
            None => None,
        }
    } else {
        None
    }
}

/// The compressed image that `s` holds, if `s` is exactly one.
pub open spec fn parse_compressed_image(s: Seq<u8>) -> Option<CompressedImageModel> {
    match parse_header(s, 0) {
        Some((header, after_header)) => match parse_field(s, after_header) {
            Some((format, after_format)) => match parse_field(s, after_format) {
                Some((data, after_data)) => if after_data == s.len() {
                    Some(CompressedImageModel { header, format, data })
                } else {
                    None
                },
                None => None,
            },
            None => None,
        },
        None => None,
    }
}

proof fn lemma_read_header(h: HeaderModel, rest: Seq<u8>)
    requires
        header_encodable(h),
    ensures
        parse_header(header_bytes(h) + rest, 0) == Some((h, header_bytes(h).len() as int)),
{
    let s = header_bytes(h) + rest;
    let e = Seq::<u8>::empty();
    let a1 = u32_le(h.seq);
    let a2 = a1 + u32_le(h.stamp.secs);
    let a3 = a2 + u32_le(h.stamp.nsecs);
    lemma_lengths(h.seq, h.frame_id);
    lemma_lengths(h.stamp.secs, h.frame_id);
    lemma_lengths(h.stamp.nsecs, h.frame_id);
    assert(s =~= e + u32_le(h.seq) + (u32_le(h.stamp.secs) + u32_le(h.stamp.nsecs) + field(h.frame_id) + rest));
    lemma_read_u32(e, h.seq, u32_le(h.stamp.secs) + u32_le(h.stamp.nsecs) + field(h.frame_id) + rest);
    assert(s =~= a1 + u32_le(h.stamp.secs) + (u32_le(h.stamp.nsecs) + field(h.frame_id) + rest));
    lemma_read_u32(a1, h.stamp.secs, u32_le(h.stamp.nsecs) + field(h.frame_id) + rest);
    assert(s =~= a2 + u32_le(h.stamp.nsecs) + (field(h.frame_id) + rest));
    lemma_read_u32(a2, h.stamp.nsecs, field(h.frame_id) + rest);
    assert(s =~= a3 + field(h.frame_id) + rest);
    lemma_read_field(a3, h.frame_id, rest);
}

/// Decoding what was encoded gives the message back.
pub proof fn lemma_compressed_image_round_trip(m: CompressedImageModel)
    requires
        compressed_image_encodable(m),
    ensures
        parse_compressed_image(compressed_image_bytes(m)) == Some(m),
{
    let s = compressed_image_bytes(m);
    let e = Seq::<u8>::empty();
    let hb = header_bytes(m.header);
    let fm = field(m.format);
    let fd = field(m.data);
    lemma_lengths(0, m.format);
    lemma_lengths(0, m.data);
    assert(s =~= hb + (fm + fd));
    lemma_read_header(m.header, fm + fd);
    assert(s =~= hb + field(m.format) + fd);
    lemma_read_field(hb, m.format, fd);
    assert(s =~= (hb + fm) + field(m.data) + e);
    lemma_read_field(hb + fm, m.data, e);
}

/// Whatever decodes to a message is that message's encoding: the encoding of a
/// message is the one byte string that decodes to it.
pub proof fn lemma_compressed_image_parsed_bytes(s: Seq<u8>)
    requires
        parse_compressed_image(s) is Some,
    ensures
        compressed_image_encodable(parse_compressed_image(s)->Some_0),
        compressed_image_bytes(parse_compressed_image(s)->Some_0) == s,
{
    let m = parse_compressed_image(s)->Some_0;
    let (h, after_header) = parse_header(s, 0)->Some_0;
    let (f, after_format) = parse_field(s, after_header)->Some_0;
    let (d, after_data) = parse_field(s, after_format)->Some_0;
    lemma_parse_field_span(s, 12);
    lemma_parse_field_span(s, after_header);
    lemma_parse_field_span(s, after_format);
    lemma_field_bytes(s, 12);
    lemma_field_bytes(s, after_header);
    lemma_field_bytes(s, after_format);
    lemma_value_bytes(s, 0);
    lemma_value_bytes(s, 4);
    lemma_value_bytes(s, 8);
    assert(s =~= s.subrange(0, 4) + s.subrange(4, 8) + s.subrange(8, 12) + s.subrange(12, after_header)
        + s.subrange(after_header, after_format) + s.subrange(after_format, after_data));
    assert(compressed_image_bytes(m) =~= s);
}

fn push_header(out: &mut Vec<u8>, h: &Header)
    requires
        header_encodable(h@),
    ensures
        final(out)@ == old(out)@ + header_bytes(h@),
{
    push_u32(out, h.seq);
    push_u32(out, h.stamp.secs);
    push_u32(out, h.stamp.nsecs);
    push_field(out, h.frame_id.as_slice());
    assert(out@ =~= old(out)@ + header_bytes(h@));
}

fn read_header(s: &[u8], pos: usize) -> (r: Option<(Header, usize)>)
    ensures
        match parse_header(s@, pos as int) {
            Some((h, end)) => r matches Some((v, e)) && v@ == h && e == end,
            None => r is None,
        },
{
    if pos > s.len() || s.len() - pos < 12 {
        return None;
    }
    let seq = read_u32(s, pos);
    let secs = read_u32(s, pos + 4);
    let nsecs = read_u32(s, pos + 8);
    match read_field(s, pos + 12) {
        Some((frame_id, end)) => Some((Header { seq, stamp: Stamp { secs, nsecs }, frame_id }, end)),
        None => None,
    }
}

impl Header {
    /// A copy of the header.
    pub fn clone_header(&self) -> (r: Header)
        ensures
            r@ == self@,
    {
        let mut frame_id: Vec<u8> = Vec::new();
        crate::wire::extend_bytes(&mut frame_id, self.frame_id.as_slice());
        Header { seq: self.seq, stamp: self.stamp, frame_id }
    }
}

impl CompressedImage {
    /// The message's wire bytes.
    pub fn to_bytes(&self) -> (r: Vec<u8>)
        requires
            compressed_image_encodable(self@),
        ensures
            r@ == compressed_image_bytes(self@),
    {
        let mut out: Vec<u8> = Vec::new();
        push_header(&mut out, &self.header);
        push_field(&mut out, self.format.as_slice());
        push_field(&mut out, self.data.as_slice());
        assert(out@ =~= compressed_image_bytes(self@));
        out
    }

    /// The message that `s` encodes; `None` where `s` is not exactly the
    /// encoding of one message.
    pub fn from_bytes(s: &[u8]) -> (r: Option<CompressedImage>)
        ensures
            match r {
                Some(m) => compressed_image_encodable(m@) && compressed_image_bytes(m@) == s@,
                None => forall|m: CompressedImageModel|
                    compressed_image_encodable(m) ==> compressed_image_bytes(m) != s@,
            },
    {
        let r = match read_header(s, 0) {
            Some((header, after_header)) => match read_field(s, after_header) {
                Some((format, after_format)) => match read_field(s, after_format) {
                    Some((data, after_data)) => if after_data == s.len() {
                        Some(CompressedImage { header, format, data })
                    } else {
                        None
                    },
                    None => None,
                },
                None => None,
            },
            None => None,
        };
        proof {
            match &r {
                Some(m) => {
                    assert(parse_compressed_image(s@) == Some(m@));
                    lemma_compressed_image_parsed_bytes(s@);
                },
                None => {
                    assert(parse_compressed_image(s@) is None);
                    assert forall|m: CompressedImageModel|
                        compressed_image_encodable(m) implies compressed_image_bytes(m) != s@ by {
                        lemma_compressed_image_round_trip(m);
                    }
                },
            }
        }
        r
    }
}

impl Image {
    /// The message's wire bytes.
    pub fn to_bytes(&self) -> (r: Vec<u8>)
        requires
            image_encodable(self@),
        ensures
            r@ == image_bytes(self@),
    {
        let mut out: Vec<u8> = Vec::new();
        push_header(&mut out, &self.header);
        push_u32(&mut out, self.height);
        push_u32(&mut out, self.width);
        push_field(&mut out, self.encoding.as_slice());
        out.push(self.is_bigendian);
        push_u32(&mut out, self.step);
        push_field(&mut out, self.data.as_slice());
        assert(out@ =~= image_bytes(self@));
        out
    }
}

} // verus!
