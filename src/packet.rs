use crate::codec::{be64, be64_at, get_u64, lemma_be64_at_bytes, put_u64, put_u8};
use crate::frame::{
    compressed_bytes, frame_bytes, frame_fits, frame_len, frame_ok, frame_size_at, params_bytes, CompressedParams, Frame,
    FrameMeta, TransportParams,
};
use vstd::prelude::*;

verus! {

/// Largest datagram, in bytes.
pub const MAX_PACKET_SIZE: usize = 8192;

/// Encoded size of a short packet's header.
pub const HEADER_LEN: usize = 8;

pub const HANDSHAKE_PACKET_TYPE: u8 = 0x01;

pub const HANDSHAKE_DONE_PACKET_TYPE: u8 = 0x02;

pub const COMPRESSED_PACKET_TYPE: u8 = 0x03;

#[derive(Debug, Clone, Copy, PartialEq, Eq, Structural)]
pub struct Header {
    pub packet_num: u64,
}

impl Header {
    pub fn new(packet_num: u64) -> (r: Self)
        ensures
            r.packet_num == packet_num,
    {
        Header { packet_num }
    }

    pub fn packet_num(&self) -> (r: u64)
        ensures
            r == self.packet_num,
    {
        self.packet_num
    }

    pub fn set_packet_num(&mut self, packet_num: u64)
        ensures
            final(self).packet_num == packet_num,
    {
        self.packet_num = packet_num;
    }

    pub fn encode(&self, buf: &mut Vec<u8>)
        ensures
            final(buf)@ == old(buf)@ + be64(self.packet_num),
    {
        put_u64(buf, self.packet_num);
    }

    pub fn decode(data: &[u8], pos: usize) -> (r: Option<(Header, usize)>)
        ensures
            r is None <==> pos + HEADER_LEN > data@.len(),
            r matches Some((h, end)) ==> end == pos + HEADER_LEN && h.packet_num == be64_at(
                data@,
                pos as int,
            ) && be64(h.packet_num) == data@.subrange(pos as int, end as int),
    {
        if data.len() < HEADER_LEN || pos > data.len() - HEADER_LEN {
            return None;
        }
        proof {
            lemma_be64_at_bytes(data@, pos as int);
        }
        Some((Header { packet_num: get_u64(data, pos) }, pos + HEADER_LEN))
    }

    pub fn min_len() -> (r: usize)
        ensures
            r == HEADER_LEN,
    {
        HEADER_LEN
    }
}

/// The frames of a packet, encoded one after another.
pub open spec fn frames_bytes(fs: Seq<Frame>) -> Seq<u8>
    decreases fs.len(),
{
    if fs.len() == 0 {
        Seq::empty()
    } else {
        frames_bytes(fs.drop_last()) + frame_bytes(fs.last())
    }
}

/// The encoded size of the frames of a packet.
pub open spec fn frames_len(fs: Seq<Frame>) -> int
    decreases fs.len(),
{
    if fs.len() == 0 {
        0
    } else {
        frames_len(fs.drop_last()) + frame_len(fs.last())
    }
}

/// The frames that are sent again when their packet is lost.
pub open spec fn resendable(f: Frame) -> bool {
    f is Stream || f is MaxStreamData
}

/// The frames of `fs` that are sent again if their packet is lost, in order.
pub open spec fn resendable_frames(fs: Seq<Frame>) -> Seq<Frame>
    decreases fs.len(),
{
    if fs.len() == 0 {
        fs
    } else if resendable(fs.last()) {
        resendable_frames(fs.drop_last()).push(fs.last())
    } else {
        resendable_frames(fs.drop_last())
    }
}

/// `m` is what a packet remembers of `f`.
pub open spec fn meta_of(f: Frame, m: FrameMeta) -> bool {
    match f {
        Frame::Stream(s) => m matches FrameMeta::Stream(d) && d.id == s.id && d.range.start
            == s.offset && d.range.end == s.offset + s.data@.len(),
        Frame::MaxStreamData(x) => m matches FrameMeta::MaxStreamData(d) && d.id == x.id,
        _ => false,
    }
}

/// From `pos` on, `s` holds whole frames of known types up to its end.
pub open spec fn frames_fit(s: Seq<u8>, pos: int) -> bool
    decreases s.len() - pos,
{
    if pos >= s.len() {
        pos == s.len()
    } else {
        frame_fits(s, pos) && frame_size_at(s, pos) > 0 && frames_fit(s, pos + frame_size_at(s, pos))
    }
}

/// A data packet: a number, then frames until the datagram ends.
#[derive(Debug, Clone)]
pub struct Packet {
    pub header: Header,
    pub frames: Vec<Frame>,
}

/// What a sender keeps of a packet until it is acknowledged or lost.
#[derive(Debug)]
pub struct PacketMeta {
    pub packet_num: u64,
    /// One entry for each frame that is sent again if the packet is lost.
    pub frame_meta: Vec<FrameMeta>,
    /// When it was sent, in microseconds.
    pub sent: u64,
    /// Its encoded size.
    pub bytes: u64,
    pub is_ack_eliciting: bool,
}

impl Packet {
    /// Every frame can be encoded and the packet fits in a datagram.
    pub open spec fn wf(&self) -> bool {
        &&& forall|k: int| 0 <= k < self.frames@.len() ==> frame_ok(#[trigger] self.frames@[k])
        &&& HEADER_LEN + frames_len(self.frames@) <= MAX_PACKET_SIZE
    }

    pub open spec fn len_spec(&self) -> int {
        HEADER_LEN + frames_len(self.frames@)
    }

    pub open spec fn ack_eliciting_spec(&self) -> bool {
        exists|k: int| 0 <= k < self.frames@.len() && !(#[trigger] self.frames@[k] is Ack)
    }

    pub fn new(packet_num: u64) -> (r: Self)
        ensures
            r.wf(),
            r.header.packet_num == packet_num,
            r.frames@.len() == 0,
    {
        Packet { header: Header::new(packet_num), frames: Vec::new() }
    }

    pub fn with_header(header: Header) -> (r: Self)
        ensures
            r.wf(),
            r.header == header,
            r.frames@.len() == 0,
    {
        Packet { header, frames: Vec::new() }
    }

    pub fn with_frames(self, frames: Vec<Frame>) -> (r: Self)
        ensures
            r.header == self.header,
            r.frames@ == frames@,
    {
        Packet { frames, ..self }
    }

    pub fn packet_num(&self) -> (r: u64)
        ensures
            r == self.header.packet_num,
    {
        self.header.packet_num
    }

    pub fn into_frames(self) -> (r: Vec<Frame>)
        ensures
            r@ == self.frames@,
    {
        self.frames
    }

    pub fn push(&mut self, frame: Frame)
        ensures
            final(self).header == old(self).header,
            final(self).frames@ == old(self).frames@.push(frame),
    {
        self.frames.push(frame);
    }

    /// Encoded size in bytes.
    pub fn len(&self) -> (r: usize)
        requires
            self.wf(),
        ensures
            r == self.len_spec(),
    {
        let mut total: usize = HEADER_LEN;
        let mut k: usize = 0;
        while k < self.frames.len()
            invariant
                self.wf(),
                k <= self.frames@.len(),
                total == HEADER_LEN + frames_len(self.frames@.subrange(0, k as int)),
            decreases self.frames@.len() - k,
        {
            proof {
                lemma_frames_len_prefix(self.frames@, k + 1);
                assert(self.frames@.subrange(0, k + 1).drop_last() =~= self.frames@.subrange(0, k as int));
            }
            total = total + self.frames[k].len();
            k += 1;
        }
        assert(self.frames@.subrange(0, k as int) =~= self.frames@);
        total
    }

    pub fn min_len() -> (r: usize)
        ensures
            r == HEADER_LEN,
    {
        HEADER_LEN
    }

    /// How many more bytes fit in the packet.
    pub fn remaining(&self) -> (r: usize)
        requires
            self.wf(),
        ensures
            r == MAX_PACKET_SIZE - self.len_spec(),
    {
        MAX_PACKET_SIZE - self.len()
    }

    /// Some frame is not an ACK, so the peer must acknowledge the packet.
    pub fn is_ack_eliciting(&self) -> (r: bool)
        ensures
            r == self.ack_eliciting_spec(),
    {
        let mut k: usize = 0;
        while k < self.frames.len()
            invariant
                k <= self.frames@.len(),
                forall|t: int| 0 <= t < k ==> #[trigger] self.frames@[t] is Ack,
            decreases self.frames@.len() - k,
        {
            if !matches!(self.frames[k], Frame::Ack(_)) {
                return true;
            }
            k += 1;
        }
        false
    }

    pub fn is_empty(&self) -> (r: bool)
        ensures
            r == (self.frames@.len() == 0),
    {
        self.frames.len() == 0
    }

    /// What the sender keeps of the packet, sent at `sent`.
    pub fn meta(&self, sent: u64) -> (r: PacketMeta)
        requires
            self.wf(),
        ensures
            r.packet_num == self.header.packet_num,
            r.sent == sent,
            r.bytes == self.len_spec(),
            r.is_ack_eliciting == self.ack_eliciting_spec(),
            r.frame_meta@.len() == resendable_frames(self.frames@).len(),
            forall|k: int|
                0 <= k < r.frame_meta@.len() ==> meta_of(
                    resendable_frames(self.frames@)[k],
                    #[trigger] r.frame_meta@[k],
                ),
    {
        let mut frame_meta: Vec<FrameMeta> = Vec::new();
        let mut k: usize = 0;
        let ghost fs = self.frames@;
        while k < self.frames.len()
            invariant
                self.wf(),
                fs == self.frames@,
                k <= fs.len(),
                frame_meta@.len() == resendable_frames(fs.subrange(0, k as int)).len(),
                forall|t: int|
                    0 <= t < frame_meta@.len() ==> meta_of(
                        resendable_frames(fs.subrange(0, k as int))[t],
                        #[trigger] frame_meta@[t],
                    ),
            decreases fs.len() - k,
        {
            proof {
                assert(fs.subrange(0, k + 1).drop_last() =~= fs.subrange(0, k as int));
                assert(frame_ok(fs[k as int]));
            }
            let m = self.frames[k].meta();
            match m {
                Some(m) => {
                    frame_meta.push(m);
                },
                None => {},
            }
            k += 1;
        }
        assert(fs.subrange(0, fs.len() as int) =~= fs);
        let bytes = self.len() as u64;
        let is_ack_eliciting = self.is_ack_eliciting();
        PacketMeta {
            packet_num: self.header.packet_num,
            frame_meta,
            sent,
            bytes,
            is_ack_eliciting,
        }
    }

    pub fn encode(&self, buf: &mut Vec<u8>)
        requires
            self.wf(),
        ensures
            final(buf)@ == old(buf)@ + be64(self.header.packet_num) + frames_bytes(self.frames@),
    {
        self.header.encode(buf);
        let ghost head = buf@;
        let mut k: usize = 0;
        while k < self.frames.len()
            invariant
                self.wf(),
                k <= self.frames@.len(),
                buf@ == head + frames_bytes(self.frames@.subrange(0, k as int)),
            decreases self.frames@.len() - k,
        {
            proof {
                assert(frame_ok(self.frames@[k as int]));
            }
            self.frames[k].encode(buf);
            k += 1;
            proof {
                assert(self.frames@.subrange(0, k as int).drop_last() =~= self.frames@.subrange(0, k - 1));
            }
        }
        assert(self.frames@.subrange(0, k as int) =~= self.frames@);
        assert(buf@ =~= old(buf)@ + be64(self.header.packet_num) + frames_bytes(self.frames@));
    }

    /// Reads a packet that fills `data`: its number, then frames to the end.
    /// `None` where the header or a frame is cut short or of unknown type.
    pub fn decode(data: &[u8]) -> (r: Option<Packet>)
        ensures
            r is Some <==> data@.len() >= HEADER_LEN && frames_fit(data@, HEADER_LEN as int),
            r matches Some(p) ==> be64(p.header.packet_num) + frames_bytes(p.frames@) == data@
                && HEADER_LEN + frames_len(p.frames@) == data@.len(),
    {
        let (header, mut pos) = match Header::decode(data, 0) {
            Some(x) => x,
            None => {
                return None;
            },
        };
        let mut frames: Vec<Frame> = Vec::new();
        while pos < data.len()
            invariant
                HEADER_LEN <= pos <= data@.len(),
                be64(header.packet_num) == data@.subrange(0, HEADER_LEN as int),
                frames_bytes(frames@) == data@.subrange(HEADER_LEN as int, pos as int),
                frames_len(frames@) == pos - HEADER_LEN,
                frames_fit(data@, HEADER_LEN as int) == frames_fit(data@, pos as int),
            decreases data@.len() - pos,
        {
            match Frame::decode(data, pos) {
                Some((f, end)) => {
                    let ghost prev = frames@;
                    proof {
                        assert(frame_len(f) == end - pos);
                    }
                    frames.push(f);
                    proof {
                        assert(frames@.drop_last() =~= prev);
                        assert(data@.subrange(HEADER_LEN as int, end as int) =~= data@.subrange(
                            HEADER_LEN as int,
                            pos as int,
                        ) + data@.subrange(pos as int, end as int));
                    }
                    pos = end;
                },
                None => {
                    return None;
                },
            }
        }
        assert(frames_fit(data@, pos as int));
        assert(data@ =~= data@.subrange(0, HEADER_LEN as int) + data@.subrange(
            HEADER_LEN as int,
            data@.len() as int,
        ));
        Some(Packet { header, frames })
    }
}

proof fn lemma_frames_len_prefix(fs: Seq<Frame>, k: int)
    requires
        0 <= k <= fs.len(),
    ensures
        frames_len(fs.subrange(0, k)) <= frames_len(fs),
    decreases fs.len(),
{
    if k < fs.len() {
        assert(fs.drop_last().subrange(0, k) =~= fs.subrange(0, k));
        lemma_frames_len_prefix(fs.drop_last(), k);
        lemma_frame_len_nonneg(fs.last());
    } else {
        assert(fs.subrange(0, k) =~= fs);
    }
}

proof fn lemma_frame_len_nonneg(f: Frame)
    ensures
        frame_len(f) >= 1,
{
}

/// The empty header of a long packet.
#[derive(Debug, Clone, Copy, PartialEq, Eq, Structural)]
pub struct LongHeader {}

impl LongHeader {
    pub fn new() -> (r: Self)
        ensures
            r == (LongHeader {  }),
    {
        LongHeader {  }
    }
}

#[derive(Debug, Clone, Copy, PartialEq, Eq, Structural)]
pub struct HandshakePacket {
    pub header: LongHeader,
    pub params: TransportParams,
}

impl HandshakePacket {
    pub open spec fn new_spec(params: TransportParams) -> Self {
        HandshakePacket { header: LongHeader {  }, params }
    }

    pub fn new(params: TransportParams) -> (r: Self)
        ensures
            r == Self::new_spec(params),
    {
        HandshakePacket { header: LongHeader::new(), params }
    }

    pub fn into_params(self) -> (r: TransportParams)
        ensures
            r == self.params,
    {
        self.params
    }
}

#[derive(Debug, Clone, Copy, PartialEq, Eq, Structural)]
pub struct CompressedPacket {
    pub header: LongHeader,
    pub params: CompressedParams,
}

impl CompressedPacket {
    pub open spec fn new_spec(params: CompressedParams) -> Self {
        CompressedPacket { header: LongHeader {  }, params }
    }

    pub fn new(params: CompressedParams) -> (r: Self)
        ensures
            r == Self::new_spec(params),
    {
        CompressedPacket { header: LongHeader::new(), params }
    }

    pub fn into_params(self) -> (r: CompressedParams)
        ensures
            r == self.params,
    {
        self.params
    }
}

#[derive(Debug, Clone, Copy, PartialEq, Eq, Structural)]
pub struct HandshakeDonePacket {
    pub header: LongHeader,
}

impl HandshakeDonePacket {
    pub fn new() -> (r: Self) {
        HandshakeDonePacket { header: LongHeader::new() }
    }
}

/// A packet of the handshake: a type byte, an empty header, a payload.
#[derive(Debug, Clone, Copy, PartialEq, Eq, Structural)]
pub enum LongPacket {
    Handshake(HandshakePacket),
    HandshakeDone(HandshakeDonePacket),
    Compressed(CompressedPacket),
}

pub open spec fn long_packet_bytes(p: LongPacket) -> Seq<u8> {
    match p {
        LongPacket::Handshake(h) => seq![HANDSHAKE_PACKET_TYPE] + params_bytes(h.params),
        LongPacket::HandshakeDone(_) => seq![HANDSHAKE_DONE_PACKET_TYPE],
        LongPacket::Compressed(c) => seq![COMPRESSED_PACKET_TYPE] + compressed_bytes(c.params),
    }
}

impl LongPacket {
    pub fn encode(&self, buf: &mut Vec<u8>)
        ensures
            final(buf)@ == old(buf)@ + long_packet_bytes(*self),
    {
        match self {
            LongPacket::Handshake(p) => {
                put_u8(buf, HANDSHAKE_PACKET_TYPE);
                p.params.encode(buf);
            },
            LongPacket::HandshakeDone(_) => {
                put_u8(buf, HANDSHAKE_DONE_PACKET_TYPE);
            },
            LongPacket::Compressed(p) => {
                put_u8(buf, COMPRESSED_PACKET_TYPE);
                p.params.encode(buf);
            },
        }
        assert(buf@ =~= old(buf)@ + long_packet_bytes(*self));
    }

    /// Reads a long packet at the start of `data`; `None` where the type is
    /// unknown or the payload is cut short.
    pub fn decode(data: &[u8]) -> (r: Option<LongPacket>)
        ensures
            r is None <==> data@.len() == 0 || !(data@[0] == HANDSHAKE_PACKET_TYPE || data@[0]
                == HANDSHAKE_DONE_PACKET_TYPE || data@[0] == COMPRESSED_PACKET_TYPE) || (data@[0]
                == HANDSHAKE_PACKET_TYPE && data@.len() < 19) || (data@[0] == COMPRESSED_PACKET_TYPE
                && data@.len() < 10),
            r matches Some(p) ==> long_packet_bytes(p) == data@.subrange(
                0,
                long_packet_bytes(p).len() as int,
            ),
    {
        if data.len() == 0 {
            return None;
        }
        let ty = data[0];
        if ty == HANDSHAKE_PACKET_TYPE {
            match TransportParams::decode(data, 1) {
                Some((params, _)) => {
                    let p = LongPacket::Handshake(HandshakePacket::new(params));
                    assert(data@.subrange(0, 19) =~= seq![ty] + data@.subrange(1, 19));
                    Some(p)
                },
                None => None,
            }
        } else if ty == HANDSHAKE_DONE_PACKET_TYPE {
            assert(data@.subrange(0, 1) =~= seq![ty]);
            Some(LongPacket::HandshakeDone(HandshakeDonePacket::new()))
        } else if ty == COMPRESSED_PACKET_TYPE {
            match CompressedParams::decode(data, 1) {
                Some((params, _)) => {
                    let p = LongPacket::Compressed(CompressedPacket::new(params));
                    assert(data@.subrange(0, 10) =~= seq![ty] + data@.subrange(1, 10));
                    Some(p)
                },
                None => None,
            }
        } else {
            None
        }
    }

    pub fn min_len() -> (r: usize)
        ensures
            r == 1,
    {
        1
    }

    /// Encoded size in bytes.
    pub fn len(&self) -> (r: usize)
        ensures
            r == long_packet_bytes(*self).len(),
    {
        match self {
            LongPacket::Handshake(_) => 19,
            LongPacket::HandshakeDone(_) => 1,
            LongPacket::Compressed(_) => 10,
        }
    }
}

} // verus!
