use crate::ack::kept_ranges;
use crate::frame::{frame_len, frame_ok, Frame, StreamDataFrame, STREAM_FRAME_MIN_LEN};
use crate::packet::{frames_len, Packet, HEADER_LEN, MAX_PACKET_SIZE};
use vstd::prelude::*;

verus! {

/// A packet with less room than this is sent at once.
pub const NEARLY_FULL: usize = 20;

/// Longest time a frame waits in a packet before it is sent, in milliseconds.
pub const MAX_PACKET_DELAY_MS: u64 = 25;

/// The frames of `ps`, packet after packet.
pub open spec fn frames_of(ps: Seq<Packet>) -> Seq<Frame>
    decreases ps.len(),
{
    if ps.len() == 0 {
        Seq::empty()
    } else {
        frames_of(ps.drop_last()) + ps.last().frames@
    }
}

/// The data of the stream frames `ps`, one after another.
pub open spec fn stream_data_of(ps: Seq<Frame>) -> Seq<u8>
    decreases ps.len(),
{
    if ps.len() == 0 {
        Seq::empty()
    } else {
        stream_data_of(ps.drop_last()) + match ps.last() {
            Frame::Stream(s) => s.data@,
            _ => Seq::empty(),
        }
    }
}

/// `ps` are consecutive pieces of stream frame `f`, from offset `offset`
/// on, none of which ends the stream.
pub open spec fn pieces_of(f: StreamDataFrame, offset: int, ps: Seq<Frame>) -> bool {
    &&& forall|i: int| 0 <= i < ps.len() ==> (#[trigger] ps[i] matches Frame::Stream(s) && s.id == f.id && !s.fin)
    &&& stream_data_of(ps).len() + offset == f.offset
    &&& forall|i: int| 0 <= i < ps.len() ==> (#[trigger] ps[i] matches Frame::Stream(s) && s.offset == offset + stream_data_of(ps.subrange(0, i)).len())
}

/// The packet numbers of `ps` run on from `first`, one by one.
pub open spec fn numbered_from(ps: Seq<Packet>, first: int) -> bool {
    forall|i: int| 0 <= i < ps.len() ==> (#[trigger] ps[i]).header.packet_num == first + i
}

/// Every packet of `ps` is well formed and holds a frame.
pub open spec fn all_sendable(ps: Seq<Packet>) -> bool {
    forall|i: int| 0 <= i < ps.len() ==> (#[trigger] ps[i]).wf() && ps[i].frames@.len() > 0
}

/// `ps` split stream frame `f`: consecutive pieces with all of its data,
/// of which only the last may end the stream.
pub open spec fn split_of(f: StreamDataFrame, ps: Seq<Frame>) -> bool {
    &&& ps.len() >= 1
    &&& stream_data_of(ps) == f.data@
    &&& forall|i: int|
        0 <= i < ps.len() ==> (#[trigger] ps[i] matches Frame::Stream(s) && s.id == f.id && s.offset
            == f.offset + stream_data_of(ps.subrange(0, i)).len() && s.fin == (i == ps.len() - 1
            && f.fin))
}

/// Gathers frames into packets. Numbers are handed out as packets are
/// started: the packet being filled has the number before `packet_num`.
pub struct Packetizer {
    pub packet_num: u64,
    pub current: Packet,
}

impl Packetizer {
    /// The current packet fits and carries the number before `packet_num`.
    pub open spec fn sound(&self) -> bool {
        &&& self.current.wf()
        &&& self.current.header.packet_num + 1 == self.packet_num
    }

    pub open spec fn wf(&self) -> bool {
        &&& self.sound()
        &&& self.remaining_spec() >= NEARLY_FULL
    }

    /// Everything handed over so far and not yet sent, in order.
    pub open spec fn pending(&self, out: Seq<Packet>) -> Seq<Frame> {
        frames_of(out) + self.current.frames@
    }

    pub fn new() -> (r: Self)
        ensures
            r.wf(),
            r.current.header.packet_num == 0,
            r.current.frames@.len() == 0,
    {
        Packetizer { packet_num: 1, current: Packet::new(0) }
    }

    pub fn remaining(&self) -> (r: usize)
        requires
            self.current.wf(),
        ensures
            r == MAX_PACKET_SIZE - self.current.len_spec(),
    {
        self.current.remaining()
    }

    pub fn is_empty(&self) -> (r: bool)
        ensures
            r == (self.current.frames@.len() == 0),
    {
        self.current.is_empty()
    }

    /// Sends the current packet, if it holds anything, and starts the next.
    pub fn send(&mut self, out: &mut Vec<Packet>)
        requires
            old(self).sound(),
            old(self).packet_num < u64::MAX,
            all_sendable(old(out)@),
        ensures
            final(self).sound(),
            old(self).current.frames@.len() > 0 ==> final(self).wf(),
            all_sendable(final(out)@),
            final(self).pending(final(out)@) == old(self).pending(old(out)@),
            old(self).current.frames@.len() == 0 ==> *final(self) == *old(self) && final(out)@
                == old(out)@,
            old(self).current.frames@.len() > 0 ==> final(out)@ == old(out)@.push(old(self).current)
                && final(self).current.header.packet_num == old(self).packet_num
                && final(self).packet_num == old(self).packet_num + 1
                && final(self).current.frames@.len() == 0,
    {
        if self.current.is_empty() {
            return;
        }
        proof {
            lemma_frames_len_nonneg(old(self).current.frames@);
        }
        let mut next = Packet::new(self.packet_num);
        self.packet_num = self.packet_num + 1;
        core::mem::swap(&mut self.current, &mut next);
        out.push(next);
        proof {
            assert(out@.drop_last() =~= old(out)@);
            assert(frames_of(out@) =~= frames_of(old(out)@) + old(self).current.frames@);
            assert(self.pending(out@) =~= old(self).pending(old(out)@));
        }
    }

    /// Puts `frame` in the current packet, sending that first if the frame
    /// would not fit, and after if it is nearly full.
    fn insert(&mut self, frame: Frame, out: &mut Vec<Packet>)
        requires
            old(self).wf(),
            old(self).packet_num < u64::MAX - 1,
            frame_ok(frame),
            frame_len(frame) <= MAX_PACKET_SIZE - HEADER_LEN,
            all_sendable(old(out)@),
        ensures
            final(self).wf(),
            all_sendable(final(out)@),
            final(self).pending(final(out)@) == old(self).pending(old(out)@).push(frame),
            final(self).packet_num <= old(self).packet_num + 2,
            final(self).packet_num - old(self).packet_num == final(out)@.len() - old(out)@.len(),
            final(out)@.len() >= old(out)@.len(),
            final(out)@.subrange(0, old(out)@.len() as int) == old(out)@,
            forall|i: int|
                old(out)@.len() <= i < final(out)@.len() ==> (#[trigger] final(out)@[i]).header.packet_num
                    == old(self).current.header.packet_num + (i - old(out)@.len()),
            final(self).current.header.packet_num == old(self).current.header.packet_num
                + (final(out)@.len() - old(out)@.len()),
            final(self).remaining_spec() >= NEARLY_FULL,
    {
        proof {
            lemma_frames_len_nonneg(self.current.frames@);
        }
        if frame.len() > self.remaining() {
            self.send(out);
        }
        let ghost mid_out = out@;
        let ghost mid = self.current;
        proof {
            lemma_frames_len_push(self.current.frames@, frame);
        }
        self.current.push(frame);
        proof {
            assert forall|k: int| 0 <= k < self.current.frames@.len() implies frame_ok(#[trigger] self.current.frames@[k]) by {
                if k < mid.frames@.len() {
                    assert(self.current.frames@[k] == mid.frames@[k]);
                }
            }
            assert(self.current.frames@.drop_last() =~= mid.frames@);
            assert(self.pending(out@) =~= (frames_of(mid_out) + mid.frames@).push(frame));
        }
        if self.remaining() < NEARLY_FULL {
            self.send(out);
        }
        proof {
            assert(self.current.header.packet_num == old(self).current.header.packet_num + (out@.len()
                - old(out)@.len()));
        }
    }

    /// Takes a frame to send and returns the packets that are ready, in
    /// order, and whether a packet was started that the max-packet-delay
    /// timer must flush. Stream frames too large for the room left are split;
    /// an ACK frame is cut to fit a packet and sent at once; handshake frames
    /// do not belong here and are dropped.
    pub fn handle(&mut self, frame: Frame) -> (r: (Vec<Packet>, bool))
        requires
            old(self).wf(),
            frame_ok(frame),
            old(self).packet_num + 2 * frame_len(frame) + 4 <= u64::MAX,
        ensures
            final(self).wf(),
            all_sendable(r.0@),
            numbered_from(r.0@, old(self).current.header.packet_num as int),
            final(self).current.header.packet_num == old(self).current.header.packet_num + r.0@.len(),
            r.1 == (final(self).current.frames@.len() > 0 && (old(self).current.frames@.len() == 0
                || r.0@.len() > 0)),
            ({
                let before = old(self).current.frames@;
                let after = final(self).pending(r.0@);
                &&& after.subrange(0, before.len() as int) == before
                &&& frame is Handshake ==> after == before
                &&& frame is MaxStreamData ==> after == before.push(frame)
                &&& frame matches Frame::Ack(a) ==> final(self).current.frames@.len() == 0
                    && after.len() == before.len() + 1 && (after.last() matches Frame::Ack(b)
                    && b.largest_ack == a.largest_ack && b.delay == a.delay && b.first_ack_range
                    == a.first_ack_range && b.ack_ranges@ == a.ack_ranges@.subrange(
                    0,
                    kept_ranges(a.ack_ranges@.len() as int, (MAX_PACKET_SIZE - HEADER_LEN) as int),
                ))
                &&& frame matches Frame::Stream(f) ==> split_of(
                    f,
                    after.subrange(before.len() as int, after.len() as int),
                )
            }),
    {
        let mut out: Vec<Packet> = Vec::new();
        let ghost start_pn = self.current.header.packet_num;
        let ghost before = self.current.frames@;
        let started = self.current.is_empty();
        proof {
            assert(frames_of(out@) =~= Seq::<Frame>::empty());
            assert(self.pending(out@) =~= before);
        }
        match frame {
            Frame::Stream(f) => {
                let mut f = f;
                let ghost orig = f;
                let ghost ps: Seq<Frame> = Seq::empty();
                loop
                    invariant
                        self.wf(),
                        all_sendable(out@),
                        numbered_from(out@, start_pn as int),
                        self.current.header.packet_num == start_pn + out@.len(),
                        self.packet_num + 2 * (STREAM_FRAME_MIN_LEN + f.data@.len()) + 4 <= u64::MAX,
                        f.wf(),
                        f.data@.len() <= usize::MAX - STREAM_FRAME_MIN_LEN,
                        f.id == orig.id,
                        f.fin == orig.fin,
                        f.offset == orig.offset + stream_data_of(ps).len(),
                        stream_data_of(ps) + f.data@ == orig.data@,
                        forall|i: int|
                            0 <= i < ps.len() ==> (#[trigger] ps[i] matches Frame::Stream(s) && s.id
                                == orig.id && s.offset == orig.offset + stream_data_of(
                                ps.subrange(0, i),
                            ).len() && !s.fin),
                        self.pending(out@) == before + ps,
                        started ==> before.len() == 0,
                        !started ==> before.len() > 0,
                    ensures
                        !(STREAM_FRAME_MIN_LEN + 1 <= self.remaining_spec() && self.remaining_spec()
                            < STREAM_FRAME_MIN_LEN + f.data@.len()),
                    decreases f.data@.len(),
                {
                    let len = f.len();
                    let remaining = self.remaining();
                    if STREAM_FRAME_MIN_LEN + 1 <= remaining && remaining < len {
                        let ghost prev_out = out@;
                        let ghost prev_ps = ps;
                        let piece = f.split_to(remaining);
                        proof {
                            ps = ps.push(Frame::Stream(piece));
                            assert(ps.drop_last() =~= prev_ps);
                            assert(stream_data_of(ps) =~= stream_data_of(prev_ps) + piece.data@);
                            assert forall|i: int| 0 <= i < ps.len() implies (#[trigger] ps[i] matches Frame::Stream(s) && s.id
                                == orig.id && s.offset == orig.offset + stream_data_of(ps.subrange(0, i)).len() && !s.fin) by {
                                if i < prev_ps.len() {
                                    assert(ps.subrange(0, i) =~= prev_ps.subrange(0, i));
                                } else {
                                    assert(ps.subrange(0, i) =~= prev_ps);
                                }
                            }
                            assert(stream_data_of(ps) + f.data@ =~= orig.data@);
                        }
                        proof {
                            lemma_frames_len_nonneg(self.current.frames@);
                        }
                        self.insert(Frame::Stream(piece), &mut out);
                        proof {
                            assert(self.pending(out@) =~= before + ps);
                            assert forall|i: int| 0 <= i < out@.len() implies (#[trigger] out@[i]).header.packet_num
                                == start_pn + i by {
                                if i < prev_out.len() {
                                    assert(out@.subrange(0, prev_out.len() as int)[i] == prev_out[i]);
                                }
                            }
                        }
                    } else {
                        break;
                    }
                }
                let ghost prev_ps = ps;
                let ghost last = Frame::Stream(f);
                let ghost prev_out = out@;
                proof {
                    lemma_frames_len_nonneg(self.current.frames@);
                }
                self.insert(Frame::Stream(f), &mut out);
                proof {
                    assert forall|i: int| 0 <= i < out@.len() implies (#[trigger] out@[i]).header.packet_num
                        == start_pn + i by {
                        if i < prev_out.len() {
                            assert(out@.subrange(0, prev_out.len() as int)[i] == prev_out[i]);
                        }
                    }
                    ps = ps.push(last);
                    assert(ps.drop_last() =~= prev_ps);
                    let after = self.pending(out@);
                    assert(after =~= before + ps);
                    assert(after.subrange(before.len() as int, after.len() as int) =~= ps);
                    assert(after.subrange(0, before.len() as int) =~= before);
                    assert(stream_data_of(ps) =~= orig.data@);
                    assert forall|i: int|
                        0 <= i < ps.len() implies (#[trigger] ps[i] matches Frame::Stream(s) && s.id == orig.id && s.offset
                            == orig.offset + stream_data_of(ps.subrange(0, i)).len() && s.fin == (i == ps.len() - 1
                            && orig.fin)) by {
                        if i < prev_ps.len() {
                            assert(ps.subrange(0, i) =~= prev_ps.subrange(0, i));
                        } else {
                            assert(ps.subrange(0, i) =~= prev_ps);
                        }
                    }
                }
            },
            Frame::MaxStreamData(f) => {
                self.insert(Frame::MaxStreamData(f), &mut out);
                proof {
                    assert forall|i: int| 0 <= i < out@.len() implies (#[trigger] out@[i]).header.packet_num
                        == start_pn + i by {
                    }
                    let after = self.pending(out@);
                    assert(after.subrange(0, before.len() as int) =~= before);
                }
            },
            Frame::Ack(a) => {
                let mut a = a;
                a.reduce_to(MAX_PACKET_SIZE - HEADER_LEN);
                proof {
                    let n = a.ack_ranges@.len() as int;
                    assert(21 + 4 * n <= MAX_PACKET_SIZE - HEADER_LEN) by (nonlinear_arith)
                        requires
                            n <= (8184 - 21) / 4,
                    ;
                }
                let ghost reduced = a;
                self.insert(Frame::Ack(a), &mut out);
                let ghost mid_out = out@;
                self.send(&mut out);
                proof {
                    assert forall|i: int| 0 <= i < out@.len() implies (#[trigger] out@[i]).header.packet_num
                        == start_pn + i by {
                        if i < mid_out.len() {
                            assert(out@[i] == mid_out[i]);
                        }
                    }
                    let after = self.pending(out@);
                    assert(after =~= before.push(Frame::Ack(reduced)));
                    assert(after.subrange(0, before.len() as int) =~= before);
                }
            },
            Frame::Handshake(_) => {
                proof {
                    assert(self.pending(out@).subrange(0, before.len() as int) =~= before);
                }
            },
        }
        let fresh = !self.current.is_empty() && (started || out.len() > 0);
        (out, fresh)
    }

    /// The max-packet-delay timer fired: sends the current packet if it
    /// holds anything.
    pub fn on_timeout(&mut self) -> (r: Vec<Packet>)
        requires
            old(self).wf(),
            old(self).packet_num < u64::MAX,
        ensures
            final(self).wf(),
            all_sendable(r@),
            old(self).current.frames@.len() == 0 ==> r@.len() == 0 && *final(self) == *old(self),
            old(self).current.frames@.len() > 0 ==> r@ == seq![old(self).current]
                && final(self).current.header.packet_num == old(self).current.header.packet_num + 1
                && final(self).current.frames@.len() == 0,
    {
        let mut out: Vec<Packet> = Vec::new();
        self.send(&mut out);
        proof {
            if old(self).current.frames@.len() > 0 {
                assert(out@ =~= seq![old(self).current]);
            }
        }
        out
    }

    pub open spec fn remaining_spec(&self) -> int {
        MAX_PACKET_SIZE - self.current.len_spec()
    }
}

proof fn lemma_frames_len_nonneg(fs: Seq<Frame>)
    ensures
        frames_len(fs) >= 0,
    decreases fs.len(),
{
    if fs.len() > 0 {
        lemma_frames_len_nonneg(fs.drop_last());
    }
}

proof fn lemma_frames_len_push(fs: Seq<Frame>, f: Frame)
    ensures
        frames_len(fs.push(f)) == frames_len(fs) + frame_len(f),
{
    assert(fs.push(f).drop_last() =~= fs);
}

} // verus!
