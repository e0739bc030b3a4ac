use crate::ack::{ack_body_bytes, AckFrame};
use crate::codec::{
    be16, be16_at, be64, be64_at, get_u16, get_u64, lemma_be16_at_bytes, lemma_be64_at_bytes,
    put_slice, put_u16, put_u64, put_u8,
};
use core::ops::Range;
use vstd::prelude::*;

verus! {

pub const HANDSHAKE_TYPE: u8 = 0x01;

pub const STREAM_TYPE: u8 = 0x02;

pub const STREAM_FIN_TYPE: u8 = 0x03;

pub const ACK_TYPE: u8 = 0x04;

pub const MAX_STREAM_DATA_TYPE: u8 = 0x05;

/// Encoded size of transport parameters.
pub const TRANSPORT_PARAMS_LEN: usize = 18;

/// Encoded size of a stream frame without its data: type, id, offset, length.
pub const STREAM_FRAME_MIN_LEN: usize = 19;

/// Encoded size of a MAX_STREAM_DATA frame.
pub const MAX_STREAM_DATA_FRAME_LEN: usize = 11;

/// Default longest time a peer may hold an ACK back, in milliseconds.
pub const DEFAULT_MAX_ACK_DELAY_MS: u64 = 100;

/// What each side declares in the handshake.
#[derive(Debug, Clone, Copy, PartialEq, Eq, Structural)]
pub struct TransportParams {
    /// How long this side may hold an ACK back, in milliseconds.
    pub max_ack_delay: u64,
    /// Initial flow-control limit of a new stream, in bytes.
    pub initial_max_stream_data: u64,
    /// How many streams this side will open.
    pub streams: u16,
}

pub open spec fn params_bytes(p: TransportParams) -> Seq<u8> {
    be64(p.max_ack_delay) + be64(p.initial_max_stream_data) + be16(p.streams)
}

impl Default for TransportParams {
    fn default() -> (r: Self)
        ensures
            r.max_ack_delay == DEFAULT_MAX_ACK_DELAY_MS,
            r.initial_max_stream_data == 1048576,
            r.streams == 10,
    {
        TransportParams {
            max_ack_delay: DEFAULT_MAX_ACK_DELAY_MS,
            initial_max_stream_data: 1048576,
            streams: 10,
        }
    }
}

impl TransportParams {
    pub fn with_max_ack_delay(self, max_ack_delay: u64) -> (r: Self)
        ensures
            r == (TransportParams { max_ack_delay, ..self }),
    {
        TransportParams { max_ack_delay, ..self }
    }

    pub fn with_initial_max_stream_data(self, initial_max_stream_data: u64) -> (r: Self)
        ensures
            r == (TransportParams { initial_max_stream_data, ..self }),
    {
        TransportParams { initial_max_stream_data, ..self }
    }

    pub fn with_streams(self, streams: u16) -> (r: Self)
        ensures
            r == (TransportParams { streams, ..self }),
    {
        TransportParams { streams, ..self }
    }

    pub fn encode(&self, buf: &mut Vec<u8>)
        ensures
            final(buf)@ == old(buf)@ + params_bytes(*self),
    {
        put_u64(buf, self.max_ack_delay);
        put_u64(buf, self.initial_max_stream_data);
        put_u16(buf, self.streams);
        assert(buf@ =~= old(buf)@ + params_bytes(*self));
    }

    /// Reads the parameters at `pos`; returns them and the position after them.
    pub fn decode(data: &[u8], pos: usize) -> (r: Option<(TransportParams, usize)>)
        ensures
            r is None <==> pos + TRANSPORT_PARAMS_LEN > data@.len(),
            r matches Some((p, end)) ==> end == pos + TRANSPORT_PARAMS_LEN && p == (TransportParams {
                max_ack_delay: be64_at(data@, pos as int),
                initial_max_stream_data: be64_at(data@, pos + 8),
                streams: be16_at(data@, pos + 16),
            }) && params_bytes(p) == data@.subrange(pos as int, end as int),
    {
        if data.len() < TRANSPORT_PARAMS_LEN || pos > data.len() - TRANSPORT_PARAMS_LEN {
            return None;
        }
        let p = TransportParams {
            max_ack_delay: get_u64(data, pos),
            initial_max_stream_data: get_u64(data, pos + 8),
            streams: get_u16(data, pos + 16),
        };
        proof {
            let s = data@;
            let q = pos as int;
            lemma_be64_at_bytes(s, q);
            lemma_be64_at_bytes(s, q + 8);
            lemma_be16_at_bytes(s, q + 16);
            assert(s.subrange(q, q + 18) =~= s.subrange(q, q + 8) + s.subrange(q + 8, q + 16)
                + s.subrange(q + 16, q + 18));
        }
        Some((p, pos + TRANSPORT_PARAMS_LEN))
    }

    pub fn min_len() -> (r: usize)
        ensures
            r == TRANSPORT_PARAMS_LEN,
    {
        TRANSPORT_PARAMS_LEN
    }
}

/// A file made of `size` copies of `byte`, sent in place of its content.
#[derive(Debug, Clone, Copy, PartialEq, Eq, Structural)]
pub struct CompressedParams {
    pub byte: u8,
    pub size: u64,
}

pub open spec fn compressed_bytes(p: CompressedParams) -> Seq<u8> {
    seq![p.byte] + be64(p.size)
}

impl CompressedParams {
    pub fn encode(&self, buf: &mut Vec<u8>)
        ensures
            final(buf)@ == old(buf)@ + compressed_bytes(*self),
    {
        put_u8(buf, self.byte);
        put_u64(buf, self.size);
        assert(buf@ =~= old(buf)@ + compressed_bytes(*self));
    }

    pub fn decode(data: &[u8], pos: usize) -> (r: Option<(CompressedParams, usize)>)
        ensures
            r is None <==> pos + 9 > data@.len(),
            r matches Some((p, end)) ==> end == pos + 9 && p == (CompressedParams {
                byte: data@[pos as int],
                size: be64_at(data@, pos + 1),
            }) && compressed_bytes(p) == data@.subrange(pos as int, end as int),
    {
        if data.len() < 9 || pos > data.len() - 9 {
            return None;
        }
        let p = CompressedParams { byte: data[pos], size: get_u64(data, pos + 1) };
        proof {
            let s = data@;
            let q = pos as int;
            lemma_be64_at_bytes(s, q + 1);
            assert(s.subrange(q, q + 9) =~= seq![s[q]] + s.subrange(q + 1, q + 9));
        }
        Some((p, pos + 9))
    }

    pub fn min_len() -> (r: usize)
        ensures
            r == 9,
    {
        9
    }
}

#[derive(Debug, Clone, Copy, PartialEq, Eq, Structural)]
pub struct HandshakeFrame {
    pub params: TransportParams,
}

/// Bytes of a stream at `offset`.
#[derive(Debug, Clone)]
pub struct StreamDataFrame {
    pub id: u16,
    pub offset: u64,
    pub data: Vec<u8>,
    /// The data ends the stream.
    pub fin: bool,
}

/// Which bytes of which stream a packet carried.
#[derive(Debug)]
pub struct StreamDataMeta {
    pub id: u16,
    pub range: Range<u64>,
}

/// The receiver of stream `id` allows bytes below `max_data`.
#[derive(Debug, Clone, Copy, PartialEq, Eq, Structural)]
pub struct MaxStreamDataFrame {
    pub id: u16,
    pub max_data: u64,
}

#[derive(Debug, Clone, Copy, PartialEq, Eq, Structural)]
pub struct MaxStreamDataMeta {
    pub id: u16,
}

impl StreamDataFrame {
    pub open spec fn wf(&self) -> bool {
        self.offset + self.data@.len() <= u64::MAX
    }

    pub fn with_fin(self) -> (r: Self)
        ensures
            r.id == self.id && r.offset == self.offset && r.data@ == self.data@ && r.fin,
    {
        StreamDataFrame { fin: true, ..self }
    }

    /// The frame's type byte, which says whether it ends the stream.
    pub fn ty(&self) -> (r: u8)
        ensures
            r == if self.fin {
                STREAM_FIN_TYPE
            } else {
                STREAM_TYPE
            },
    {
        if self.fin {
            STREAM_FIN_TYPE
        } else {
            STREAM_TYPE
        }
    }

    /// Encoded size in bytes.
    pub fn len(&self) -> (r: usize)
        requires
            self.data@.len() <= usize::MAX - STREAM_FRAME_MIN_LEN,
        ensures
            r == STREAM_FRAME_MIN_LEN + self.data@.len(),
    {
        STREAM_FRAME_MIN_LEN + self.data.len()
    }

    pub fn min_len() -> (r: usize)
        ensures
            r == STREAM_FRAME_MIN_LEN,
    {
        STREAM_FRAME_MIN_LEN
    }

    /// Cuts off a frame of exactly `at` encoded bytes from the front; it
    /// never ends the stream.
    pub fn split_to(&mut self, at: usize) -> (r: Self)
        requires
            old(self).wf(),
            STREAM_FRAME_MIN_LEN < at < STREAM_FRAME_MIN_LEN + old(self).data@.len(),
        ensures
            final(self).wf(),
            r.wf(),
            r.id == old(self).id,
            r.offset == old(self).offset,
            r.data@ == old(self).data@.subrange(0, at - STREAM_FRAME_MIN_LEN),
            !r.fin,
            final(self).id == old(self).id,
            final(self).offset == old(self).offset + (at - STREAM_FRAME_MIN_LEN),
            final(self).data@ == old(self).data@.subrange(
                at - STREAM_FRAME_MIN_LEN,
                old(self).data@.len() as int,
            ),
            final(self).fin == old(self).fin,
    {
        let data_at = at - STREAM_FRAME_MIN_LEN;
        let mut head = self.data.split_off(data_at);
        core::mem::swap(&mut head, &mut self.data);
        let result = StreamDataFrame { id: self.id, offset: self.offset, data: head, fin: false };
        self.offset = self.offset + data_at as u64;
        result
    }

    /// The stream and byte range the frame carries.
    pub fn meta(&self) -> (r: StreamDataMeta)
        requires
            self.wf(),
        ensures
            r.id == self.id,
            r.range.start == self.offset,
            r.range.end == self.offset + self.data@.len(),
    {
        StreamDataMeta { id: self.id, range: self.offset..self.offset + self.data.len() as u64 }
    }

    /// Appends id, offset, length and data: the frame after its type byte.
    pub fn encode(&self, buf: &mut Vec<u8>)
        ensures
            final(buf)@ == old(buf)@ + stream_body_bytes(*self),
    {
        put_u16(buf, self.id);
        put_u64(buf, self.offset);
        put_u64(buf, self.data.len() as u64);
        put_slice(buf, self.data.as_slice());
        assert(buf@ =~= old(buf)@ + stream_body_bytes(*self));
    }

    /// Reads a frame at `pos`, after its type byte; it does not end the stream.
    pub fn decode(data: &[u8], pos: usize) -> (r: Option<(StreamDataFrame, usize)>)
        ensures
            r is None <==> pos + 18 > data@.len() || pos + 18 + be64_at(data@, pos + 10)
                > data@.len(),
            r matches Some((f, end)) ==> {
                &&& end == pos + 18 + be64_at(data@, pos + 10)
                &&& f.id == be16_at(data@, pos as int)
                &&& f.offset == be64_at(data@, pos + 2)
                &&& f.data@ == data@.subrange(pos + 18, end as int)
                &&& !f.fin
                &&& stream_body_bytes(f) == data@.subrange(pos as int, end as int)
            },
    {
        if data.len() < 18 || pos > data.len() - 18 {
            return None;
        }
        let id = get_u16(data, pos);
        let offset = get_u64(data, pos + 2);
        let length = get_u64(data, pos + 10);
        let body = pos + 18;
        if length > (data.len() - body) as u64 {
            return None;
        }
        let end = body + length as usize;
        let mut bytes: Vec<u8> = Vec::with_capacity(length as usize);
        let mut k: usize = body;
        while k < end
            invariant
                body <= k <= end <= data@.len(),
                bytes@ == data@.subrange(body as int, k as int),
            decreases end - k,
        {
            bytes.push(data[k]);
            k += 1;
            assert(bytes@ =~= data@.subrange(body as int, k as int));
        }
        let f = StreamDataFrame { id, offset, data: bytes, fin: false };
        proof {
            let s = data@;
            let q = pos as int;
            lemma_be16_at_bytes(s, q);
            lemma_be64_at_bytes(s, q + 2);
            lemma_be64_at_bytes(s, q + 10);
            assert(f.data@.len() as u64 == length);
            assert(s.subrange(q, end as int) =~= s.subrange(q, q + 2) + s.subrange(q + 2, q + 10)
                + s.subrange(q + 10, q + 18) + s.subrange(q + 18, end as int));
        }
        Some((f, end))
    }
}

/// A stream frame's fields on the wire, after its type byte.
pub open spec fn stream_body_bytes(f: StreamDataFrame) -> Seq<u8> {
    be16(f.id) + be64(f.offset) + be64(f.data@.len() as u64) + f.data@
}

pub open spec fn max_stream_data_body_bytes(f: MaxStreamDataFrame) -> Seq<u8> {
    be16(f.id) + be64(f.max_data)
}

impl MaxStreamDataFrame {
    pub fn meta(&self) -> (r: MaxStreamDataMeta)
        ensures
            r.id == self.id,
    {
        MaxStreamDataMeta { id: self.id }
    }

    pub fn encode(&self, buf: &mut Vec<u8>)
        ensures
            final(buf)@ == old(buf)@ + max_stream_data_body_bytes(*self),
    {
        put_u16(buf, self.id);
        put_u64(buf, self.max_data);
        assert(buf@ =~= old(buf)@ + max_stream_data_body_bytes(*self));
    }

    pub fn decode(data: &[u8], pos: usize) -> (r: Option<(MaxStreamDataFrame, usize)>)
        ensures
            r is None <==> pos + 10 > data@.len(),
            r matches Some((f, end)) ==> end == pos + 10 && f == (MaxStreamDataFrame {
                id: be16_at(data@, pos as int),
                max_data: be64_at(data@, pos + 2),
            }) && max_stream_data_body_bytes(f) == data@.subrange(pos as int, end as int),
    {
        if data.len() < 10 || pos > data.len() - 10 {
            return None;
        }
        let f = MaxStreamDataFrame { id: get_u16(data, pos), max_data: get_u64(data, pos + 2) };
        proof {
            let s = data@;
            let q = pos as int;
            lemma_be16_at_bytes(s, q);
            lemma_be64_at_bytes(s, q + 2);
            assert(s.subrange(q, q + 10) =~= s.subrange(q, q + 2) + s.subrange(q + 2, q + 10));
        }
        Some((f, pos + 10))
    }

    pub fn min_len() -> (r: usize)
        ensures
            r == MAX_STREAM_DATA_FRAME_LEN,
    {
        MAX_STREAM_DATA_FRAME_LEN
    }
}

#[derive(Debug, Clone)]
pub enum Frame {
    Handshake(HandshakeFrame),
    Ack(AckFrame),
    Stream(StreamDataFrame),
    MaxStreamData(MaxStreamDataFrame),
}

/// What a packet must remember of a frame to send it again.
#[derive(Debug)]
pub enum FrameMeta {
    Stream(StreamDataMeta),
    MaxStreamData(MaxStreamDataMeta),
}

/// A frame addressed to one stream.
#[derive(Debug)]
pub enum StreamFrame {
    Data(StreamDataFrame),
    MaxData(MaxStreamDataFrame),
}

impl StreamFrame {
    pub fn id(&self) -> (r: u16)
        ensures
            r == match self {
                StreamFrame::Data(f) => f.id,
                StreamFrame::MaxData(f) => f.id,
            },
    {
        match self {
            StreamFrame::Data(f) => f.id,
            StreamFrame::MaxData(f) => f.id,
        }
    }
}

/// A frame on the wire: its type byte, then its fields.
pub open spec fn frame_bytes(f: Frame) -> Seq<u8> {
    match f {
        Frame::Handshake(h) => seq![HANDSHAKE_TYPE] + params_bytes(h.params),
        Frame::Ack(a) => seq![ACK_TYPE] + ack_body_bytes(a),
        Frame::Stream(s) => seq![if s.fin { STREAM_FIN_TYPE } else { STREAM_TYPE }] + stream_body_bytes(s),
        Frame::MaxStreamData(m) => seq![MAX_STREAM_DATA_TYPE] + max_stream_data_body_bytes(m),
    }
}

/// Encoded size of a frame.
pub open spec fn frame_len(f: Frame) -> int {
    match f {
        Frame::Handshake(_) => 1 + TRANSPORT_PARAMS_LEN,
        Frame::Ack(a) => 21 + 4 * (a.ack_ranges@.len() as int),
        Frame::Stream(s) => STREAM_FRAME_MIN_LEN + (s.data@.len() as int),
        Frame::MaxStreamData(_) => MAX_STREAM_DATA_FRAME_LEN as int,
    }
}

/// A frame small enough to encode and to measure.
pub open spec fn frame_ok(f: Frame) -> bool {
    match f {
        Frame::Ack(a) => a.ack_ranges@.len() <= u16::MAX,
        Frame::Stream(s) => s.wf() && s.data@.len() <= usize::MAX - STREAM_FRAME_MIN_LEN,
        _ => true,
    }
}

/// The bytes at `pos` hold a whole frame of a known type.
pub open spec fn frame_fits(s: Seq<u8>, pos: int) -> bool {
    let p = pos + 1;
    &&& pos < s.len()
    &&& {
        let t = s[pos];
        if t == HANDSHAKE_TYPE {
            p + 18 <= s.len()
        } else if t == STREAM_TYPE || t == STREAM_FIN_TYPE {
            p + 18 <= s.len() && p + 18 + be64_at(s, p + 10) <= s.len()
        } else if t == ACK_TYPE {
            p + 20 <= s.len() && p + 20 + 4 * be16_at(s, p + 16) <= s.len()
        } else if t == MAX_STREAM_DATA_TYPE {
            p + 10 <= s.len()
        } else {
            false
        }
    }
}

/// The encoded size of the frame at `pos`, as its header bytes give it.
pub open spec fn frame_size_at(s: Seq<u8>, pos: int) -> int {
    let t = s[pos];
    let p = pos + 1;
    if t == HANDSHAKE_TYPE {
        19int
    } else if t == STREAM_TYPE || t == STREAM_FIN_TYPE {
        19 + be64_at(s, p + 10) as int
    } else if t == ACK_TYPE {
        21 + 4 * (be16_at(s, p + 16) as int)
    } else {
        11int
    }
}

impl Frame {
    /// What to remember of the frame to send it again; ACK and handshake
    /// frames are never sent again.
    pub fn meta(&self) -> (r: Option<FrameMeta>)
        requires
            self matches Frame::Stream(s) ==> s.wf(),
        ensures
            r is None <==> (self is Ack || self is Handshake),
            self matches Frame::Stream(s) ==> (r matches Some(FrameMeta::Stream(m)) && m.id == s.id
                && m.range.start == s.offset && m.range.end == s.offset + s.data@.len()),
            self matches Frame::MaxStreamData(f) ==> (r matches Some(FrameMeta::MaxStreamData(m))
                && m.id == f.id),
    {
        match self {
            Frame::Stream(f) => Some(FrameMeta::Stream(f.meta())),
            Frame::MaxStreamData(f) => Some(FrameMeta::MaxStreamData(f.meta())),
            _ => None,
        }
    }

    /// Encoded size in bytes.
    pub fn len(&self) -> (r: usize)
        requires
            frame_ok(*self),
        ensures
            r == frame_len(*self),
    {
        match self {
            Frame::Handshake(_) => 1 + TRANSPORT_PARAMS_LEN,
            Frame::Ack(a) => a.len(),
            Frame::Stream(s) => s.len(),
            Frame::MaxStreamData(_) => MAX_STREAM_DATA_FRAME_LEN,
        }
    }

    pub fn min_len() -> (r: usize)
        ensures
            r == 1,
    {
        1
    }

    pub fn encode(&self, buf: &mut Vec<u8>)
        requires
            frame_ok(*self),
        ensures
            final(buf)@ == old(buf)@ + frame_bytes(*self),
    {
        match self {
            Frame::Handshake(f) => {
                put_u8(buf, HANDSHAKE_TYPE);
                f.params.encode(buf);
            },
            Frame::Stream(f) => {
                put_u8(buf, f.ty());
                f.encode(buf);
            },
            Frame::Ack(f) => {
                put_u8(buf, ACK_TYPE);
                f.encode(buf);
            },
            Frame::MaxStreamData(f) => {
                put_u8(buf, MAX_STREAM_DATA_TYPE);
                f.encode(buf);
            },
        }
        assert(buf@ =~= old(buf)@ + frame_bytes(*self));
    }

    /// Reads the frame at `pos`; returns it and the position after it, or
    /// `None` where the bytes there hold no whole frame of a known type.
    pub fn decode(data: &[u8], pos: usize) -> (r: Option<(Frame, usize)>)
        ensures
            r is None <==> !frame_fits(data@, pos as int),
            r matches Some((f, end)) ==> pos < end <= data@.len() && frame_bytes(f) == data@.subrange(
                pos as int,
                end as int,
            ) && frame_len(f) == end - pos && end == pos + frame_size_at(data@, pos as int),
    {
        if pos >= data.len() {
            return None;
        }
        let ty = data[pos];
        let p = pos + 1;
        let ghost s = data@;
        let r = if ty == HANDSHAKE_TYPE {
            match TransportParams::decode(data, p) {
                Some((params, end)) => Some((Frame::Handshake(HandshakeFrame { params }), end)),
                None => None,
            }
        } else if ty == ACK_TYPE {
            match AckFrame::decode(data, p) {
                Some((f, end)) => {
                    proof {
                        assert(f.ack_ranges@.len() == be16_at(s, p + 16));
                    }
                    Some((Frame::Ack(f), end))
                },
                None => None,
            }
        } else if ty == STREAM_TYPE || ty == STREAM_FIN_TYPE {
            match StreamDataFrame::decode(data, p) {
                Some((f, end)) => {
                    let f = if ty == STREAM_FIN_TYPE {
                        f.with_fin()
                    } else {
                        f
                    };
                    Some((Frame::Stream(f), end))
                },
                None => None,
            }
        } else if ty == MAX_STREAM_DATA_TYPE {
            match MaxStreamDataFrame::decode(data, p) {
                Some((f, end)) => Some((Frame::MaxStreamData(f), end)),
                None => None,
            }
        } else {
            None
        };
        proof {
            if let Some((ref f, end)) = r {
                assert(s.subrange(pos as int, end as int) =~= seq![ty] + s.subrange(p as int, end as int));
                match f {
                    Frame::Stream(sf) => {
                        assert(stream_body_bytes(*sf) == s.subrange(p as int, end as int));
                    },
                    _ => {},
                }
            }
        }
        r
    }
}

} // verus!
