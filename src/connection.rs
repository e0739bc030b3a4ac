use crate::ack::{decode_frame, AckFrame};
use crate::ack_sender::{AckAction, AckSender};
use crate::congestion::{NewReno, RttEstimator, RTT_LIMIT_MICROS};
use crate::frame::{frame_ok, Frame, StreamFrame, TransportParams};
use crate::codec::be64;
use crate::packet::{frames_bytes, frames_fit, Packet, HEADER_LEN};
use crate::packetizer::{Packetizer, MAX_PACKET_DELAY_MS};
use crate::inflight::{holds, lemma_acked_or_tracked, lemma_filtered_members, unacked, Inflight};
use crate::packet::PacketMeta;
use crate::frame::MaxStreamDataFrame;
use crate::send_window::MAX_WINDOW_SIZE;
use crate::stream::{ReadOutcome, StreamError};
use crate::streams::{budget, lemma_send_index, send_index, AcceptOutcome, StreamsInner};
use vstd::prelude::*;

verus! {

/// Relies on rand's `random::<u64>`: any value may come back.
#[verifier::external_body]
fn random_id() -> (r: u64) {
    rand::random::<u64>()
}

/// `a + b`, or `u64::MAX` where that does not fit.
fn add_sat(a: u64, b: u64) -> (r: u64)
    ensures
        r == if a + b > u64::MAX { u64::MAX as int } else { a + b },
{
    if a > u64::MAX - b {
        u64::MAX
    } else {
        a + b
    }
}

/// Whether `frame` can be encoded, measured and packed after `packet_num`.
fn packable(frame: &Frame, packet_num: u64) -> (r: bool)
    ensures
        r ==> frame_ok(*frame) && packet_num + 2 * crate::frame::frame_len(*frame) + 4 <= u64::MAX,
{
    let ok = match frame {
        Frame::Ack(a) => a.ack_ranges.len() <= 0xffff,
        Frame::Stream(s) => s.data.len() <= usize::MAX - 19 && s.offset <= u64::MAX - s.data.len() as u64,
        _ => true,
    };
    if !ok {
        return false;
    }
    let n = frame.len() as u64;
    if n > u64::MAX / 4 {
        return false;
    }
    packet_num <= u64::MAX - 2 * n - 4
}

/// `d` is the encoding of a packet that fits in a datagram.
pub open spec fn packet_datagram(d: Seq<u8>) -> bool {
    exists|p: Packet| #[trigger] p.wf() && d == be64(p.header.packet_num) + frames_bytes(p.frames@)
}

/// Some loss timer is set for packet number `pn`.
pub open spec fn armed(dl: Seq<(u64, u64)>, pn: u64) -> bool {
    exists|k: int| 0 <= k < dl.len() && (#[trigger] dl[k]).0 == pn
}

/// Every tracked packet and every timer is numbered below `cur`, and every
/// tracked packet has a loss timer.
pub open spec fn timers_ok(ps: Seq<PacketMeta>, dl: Seq<(u64, u64)>, cur: u64) -> bool {
    &&& forall|i: int| 0 <= i < ps.len() ==> (#[trigger] ps[i]).packet_num < cur
    &&& forall|k: int| 0 <= k < dl.len() ==> (#[trigger] dl[k]).0 < cur
    &&& forall|i: int| 0 <= i < ps.len() ==> armed(dl, (#[trigger] ps[i]).packet_num)
}

/// Every packet of `qs` is one of `ps` or numbered `lo` or more.
pub open spec fn within(qs: Seq<PacketMeta>, ps: Seq<PacketMeta>, lo: int) -> bool {
    forall|m: PacketMeta| #[trigger] qs.contains(m) ==> ps.contains(m) || m.packet_num >= lo
}

proof fn lemma_timers_push(ps: Seq<PacketMeta>, dl: Seq<(u64, u64)>, cur: u64, m: PacketMeta, d: u64)
    requires
        timers_ok(ps, dl, cur),
        m.packet_num < cur,
    ensures
        timers_ok(ps.push(m), dl.push((m.packet_num, d)), cur),
{
    let ps2 = ps.push(m);
    let dl2 = dl.push((m.packet_num, d));
    assert forall|i: int| 0 <= i < ps2.len() implies armed(dl2, (#[trigger] ps2[i]).packet_num) by {
        if i < ps.len() {
            assert(ps2[i] == ps[i]);
            let k = choose|k: int| 0 <= k < dl.len() && (#[trigger] dl[k]).0 == ps[i].packet_num;
            assert(dl2[k] == dl[k]);
        } else {
            assert(dl2[dl.len() as int].0 == m.packet_num);
        }
    }
    assert forall|i: int| 0 <= i < ps2.len() implies (#[trigger] ps2[i]).packet_num < cur by {
        if i < ps.len() {
            assert(ps2[i] == ps[i]);
        }
    }
    assert forall|k: int| 0 <= k < dl2.len() implies (#[trigger] dl2[k]).0 < cur by {
        if k < dl.len() {
            assert(dl2[k] == dl[k]);
        }
    }
}

proof fn lemma_timers_sub(ps: Seq<PacketMeta>, qs: Seq<PacketMeta>, dl: Seq<(u64, u64)>, cur: u64)
    requires
        timers_ok(ps, dl, cur),
        forall|m: PacketMeta| #[trigger] qs.contains(m) ==> ps.contains(m),
    ensures
        timers_ok(qs, dl, cur),
{
    assert forall|i: int| 0 <= i < qs.len() implies (#[trigger] qs[i]).packet_num < cur && armed(dl, qs[i].packet_num) by {
        assert(qs.contains(qs[i]));
        let j = choose|j: int| 0 <= j < ps.len() && ps[j] == qs[i];
        assert(ps[j].packet_num < cur);
        assert(armed(dl, ps[j].packet_num));
    }
}

proof fn lemma_timers_grow(ps: Seq<PacketMeta>, dl: Seq<(u64, u64)>, cur: u64, cur2: u64)
    requires
        timers_ok(ps, dl, cur),
        cur <= cur2,
    ensures
        timers_ok(ps, dl, cur2),
{
}

/// A packet number below `lo` that `ps` does not hold stays unheld in `qs`.
proof fn lemma_not_holds_within(ps: Seq<PacketMeta>, qs: Seq<PacketMeta>, lo: int, q: u64)
    requires
        within(qs, ps, lo),
        q < lo,
        !holds(ps, q),
    ensures
        !holds(qs, q),
{
    if holds(qs, q) {
        let i = choose|i: int| 0 <= i < qs.len() && (#[trigger] qs[i]).packet_num == q;
        assert(qs.contains(qs[i]));
        assert(ps.contains(qs[i]));
        let j = choose|j: int| 0 <= j < ps.len() && ps[j] == qs[i];
        assert(ps[j].packet_num == q);
    }
}

/// What handing frame `f` on does, from `c0` to `c1`: an ACK reaches the
/// in-flight packets, stream data and limits reach their streams (with
/// result `res`), a handshake frame is ignored.
pub open spec fn frame_step(c0: Connection, f: Frame, res: Result<usize, StreamError>, c1: Connection) -> bool {
    match f {
        Frame::Stream(d) => c0.same_but_streams(c1) && c0.streams.dispatch_post(StreamFrame::Data(d), res, c1.streams),
        Frame::MaxStreamData(m) => c0.same_but_streams(c1) && c0.streams.dispatch_post(
            StreamFrame::MaxData(m),
            res,
            c1.streams,
        ),
        Frame::Ack(a) => {
            &&& c1.ack_sender == c0.ack_sender
            &&& c1.packetizer == c0.packetizer
            &&& c1.rto_deadlines == c0.rto_deadlines
            &&& decode_frame(a.largest_ack, a.first_ack_range, a.ack_ranges@) matches Some(st)
                ==> c1.inflight.packets@ == unacked(c0.inflight.packets@, st.0)
            &&& decode_frame(a.largest_ack, a.first_ack_range, a.ack_ranges@) is None
                ==> c1.inflight.packets@ == c0.inflight.packets@
        },
        Frame::Handshake(_) => c1 == c0,
    }
}

/// The datagram `data` was packet `p`: its frames were handed on one by one
/// (`trace` holds the state before each, `res` the streams' answers), and
/// only then was the arrival reported to the acknowledgement machine, which
/// answered `a` and became `c1.ack_sender`.
pub open spec fn handled(
    c0: Connection,
    data: Seq<u8>,
    now: u64,
    p: Packet,
    a: AckAction,
    trace: Seq<Connection>,
    res: Seq<Result<usize, StreamError>>,
    c1: Connection,
) -> bool {
    &&& encodes(p, data)
    &&& trace.len() == p.frames@.len() + 1
    &&& res.len() == p.frames@.len()
    &&& trace[0] == c0
    &&& forall|k: int|
        #![trigger trace[k]]
        0 <= k < p.frames@.len() ==> frame_step(trace[k], p.frames@[k], res[k], trace[k + 1])
    &&& trace.last().ack_sender == c0.ack_sender
    &&& ack_fed(c0.ack_sender, p, a, now, c1.ack_sender)
}

/// A prefix of a prefix is a prefix.
proof fn lemma_prefix_trans(a: Seq<Vec<u8>>, b: Seq<Vec<u8>>, c: Seq<Vec<u8>>)
    requires
        b.len() >= a.len() && b.subrange(0, a.len() as int) == a,
        c.len() >= b.len() && c.subrange(0, b.len() as int) == b,
    ensures
        c.len() >= a.len() && c.subrange(0, a.len() as int) == a,
{
    assert forall|i: int| 0 <= i < a.len() implies c[i] == a[i] by {
        assert(c.subrange(0, b.len() as int)[i] == c[i]);
        assert(b.subrange(0, a.len() as int)[i] == b[i]);
    }
    assert(c.subrange(0, a.len() as int) =~= a);
}

/// `d` is the encoding of packet `p`.
pub open spec fn encodes(p: Packet, d: Seq<u8>) -> bool {
    d == be64(p.header.packet_num) + frames_bytes(p.frames@)
}

/// `next` is `prev` after packet `p`'s arrival at `now` was reported to it
/// and it answered `a`; a packet numbered `u64::MAX` is not reported.
pub open spec fn ack_fed(prev: AckSender, p: Packet, a: AckAction, now: u64, next: AckSender) -> bool {
    if p.header.packet_num < u64::MAX {
        prev.recv_post(p.header.packet_num, p.ack_eliciting_spec(), now, now, a, next)
    } else {
        next == prev
    }
}

/// Every datagram of `out` encodes a packet.
pub open spec fn all_packets(out: Seq<Vec<u8>>) -> bool {
    forall|i: int| 0 <= i < out.len() ==> packet_datagram(#[trigger] out[i]@)
}

/// One end of a connection: every component of the engine, and the timers
/// they asked for. Times are microseconds on the caller's clock; the caller
/// sends what the methods return and calls `on_wake` by `next_deadline`, and
/// at least every millisecond while streams have data to send.
pub struct Connection {
    pub id: u64,
    pub packetizer: Packetizer,
    /// When the packet being filled must go out.
    pub packet_deadline: Option<u64>,
    pub ack_sender: AckSender,
    /// When a held-back acknowledgement must go out.
    pub ack_deadline: Option<u64>,
    pub inflight: Inflight,
    /// Packet numbers with the time at which each is declared lost.
    pub rto_deadlines: Vec<(u64, u64)>,
    pub estimator: RttEstimator,
    pub congestion: NewReno,
    pub streams: StreamsInner,
    /// How long this side may hold an acknowledgement back, in microseconds.
    pub max_ack_delay: u64,
}

impl Connection {
    pub open spec fn wf(&self) -> bool {
        &&& self.packetizer.wf()
        &&& self.ack_sender.wf()
        &&& self.estimator.wf()
        &&& self.congestion.wf()
        &&& self.streams.wf()
        &&& timers_ok(self.inflight.packets@, self.rto_deadlines@, self.packetizer.current.header.packet_num)
    }

    /// A connection where this side declared `local` and the peer `peer`,
    /// or `None` where the peer's ACK delay is beyond what the estimator takes.
    pub fn new(local: TransportParams, peer: TransportParams, now: u64) -> (r: Option<Self>)
        ensures
            r is None <==> peer.max_ack_delay > RTT_LIMIT_MICROS / 1000,
            r matches Some(c) ==> {
                &&& c.wf()
                &&& c.streams.peer_streams == peer.streams
                &&& c.streams.send_limit == peer.initial_max_stream_data
                &&& c.streams.send_streams@.len() == 0 && c.streams.recv_streams@.len() == 0
                &&& c.streams.next_id == 0 && c.streams.recv_count == 0
                &&& c.estimator.max_ack_delay == peer.max_ack_delay * 1000
                &&& c.estimator.smoothed is None
                &&& c.ack_sender.max_ack_delay == local.max_ack_delay
                &&& c.ack_sender.state == crate::ack_sender::AckState::Idle
                &&& c.ack_sender.acked == 0
                &&& c.congestion.window == 12000
                &&& c.congestion.ssthresh == u64::MAX
                &&& c.congestion.recovery_start_time == now
                &&& c.packetizer.current.header.packet_num == 0
                &&& c.packetizer.current.frames@.len() == 0
                &&& c.inflight.packets@.len() == 0
                &&& c.rto_deadlines@.len() == 0
                &&& c.packet_deadline is None && c.ack_deadline is None
            },
    {
        if peer.max_ack_delay > RTT_LIMIT_MICROS / 1000 {
            return None;
        }
        let id = random_id();
        Some(Connection {
            id,
            packetizer: Packetizer::new(),
            packet_deadline: None,
            ack_sender: AckSender::new(local.max_ack_delay),
            ack_deadline: None,
            inflight: Inflight::new(),
            rto_deadlines: Vec::new(),
            estimator: RttEstimator::new(peer.max_ack_delay * 1000),
            congestion: NewReno::default_at(now),
            streams: StreamsInner::new(peer.streams, peer.initial_max_stream_data),
            max_ack_delay: if local.max_ack_delay > u64::MAX / 1000 {
                u64::MAX
            } else {
                local.max_ack_delay * 1000
            },
        })
    }

    pub fn id(&self) -> (r: u64)
        ensures
            r == self.id,
    {
        self.id
    }

    /// Encodes `packets` into `out`, tracking the ack-eliciting ones.
    fn transmit(&mut self, packets: Vec<Packet>, now: u64, out: &mut Vec<Vec<u8>>, lo: Ghost<int>)
        requires
            old(self).wf(),
            forall|i: int| 0 <= i < packets@.len() ==> (#[trigger] packets@[i]).wf(),
            forall|i: int| 0 <= i < packets@.len() ==> lo@ <= (#[trigger] packets@[i]).header.packet_num
                < old(self).packetizer.current.header.packet_num,
            all_packets(old(out)@),
        ensures
            final(self).wf(),
            final(self).streams == old(self).streams,
            final(self).ack_sender == old(self).ack_sender,
            final(self).packetizer == old(self).packetizer,
            final(self).ack_deadline == old(self).ack_deadline,
            final(self).packet_deadline == old(self).packet_deadline,
            all_packets(final(out)@),
            final(out)@.len() == old(out)@.len() + packets@.len(),
            final(out)@.subrange(0, old(out)@.len() as int) == old(out)@,
            forall|i: int| 0 <= i < packets@.len() ==> encodes(packets@[i], #[trigger] final(out)@[old(out)@.len() + i]@),
            within(final(self).inflight.packets@, old(self).inflight.packets@, lo@),
            final(self).rto_deadlines@.len() >= old(self).rto_deadlines@.len(),
            final(self).rto_deadlines@.subrange(0, old(self).rto_deadlines@.len() as int) == old(self).rto_deadlines@,
    {
        let ghost all = packets@;
        let ghost out0 = out@;
        let mut packets = packets;
        while packets.len() > 0
            invariant
                self.wf(),
                self.streams == old(self).streams,
                self.ack_sender == old(self).ack_sender,
                self.packetizer == old(self).packetizer,
                self.ack_deadline == old(self).ack_deadline,
                self.packet_deadline == old(self).packet_deadline,
                forall|i: int| 0 <= i < packets@.len() ==> (#[trigger] packets@[i]).wf(),
                all_packets(out@),
                packets@.len() <= all.len(),
                out@.len() == out0.len() + (all.len() - packets@.len()),
                packets@ == all.subrange(all.len() - packets@.len(), all.len() as int),
                out@.subrange(0, out0.len() as int) == out0,
                forall|i: int| 0 <= i < all.len() - packets@.len() ==> encodes(all[i], #[trigger] out@[out0.len() + i]@),
                forall|i: int| 0 <= i < all.len() ==> lo@ <= (#[trigger] all[i]).header.packet_num
                    < self.packetizer.current.header.packet_num,
                within(self.inflight.packets@, old(self).inflight.packets@, lo@),
                self.rto_deadlines@.len() >= old(self).rto_deadlines@.len(),
                self.rto_deadlines@.subrange(0, old(self).rto_deadlines@.len() as int) == old(self).rto_deadlines@,
            decreases packets@.len(),
        {
            let ghost done = all.len() - packets@.len();
            assert(packets@[0] == all[done]);
            let p = packets.remove(0);
            assert(p.wf());
            let meta = p.meta(now);
            let mut bytes: Vec<u8> = Vec::new();
            p.encode(&mut bytes);
            proof {
                assert(bytes@ =~= be64(p.header.packet_num) + frames_bytes(p.frames@));
                assert(packet_datagram(bytes@));
            }
            let ghost before = out@;
            out.push(bytes);
            proof {
                assert forall|i: int| 0 <= i < out@.len() implies packet_datagram(#[trigger] out@[i]@) by {
                    if i < before.len() {
                        assert(out@[i] == before[i]);
                    }
                }
                assert forall|i: int| 0 <= i < out0.len() implies out@[i] == out0[i] by {
                    assert(out@[i] == before[i]);
                    assert(before.subrange(0, out0.len() as int)[i] == before[i]);
                }
                assert(out@.subrange(0, out0.len() as int) =~= out0);
                assert forall|i: int| 0 <= i < done + 1 implies encodes(all[i], #[trigger] out@[out0.len() + i]@) by {
                    if i < done {
                        assert(out@[out0.len() + i] == before[out0.len() + i]);
                    }
                }
                assert(packets@ =~= all.subrange(all.len() - packets@.len(), all.len() as int));
            }
            let pn = meta.packet_num;
            let ghost gm = meta;
            let ghost ps0 = self.inflight.packets@;
            let ghost dl0 = self.rto_deadlines@;
            match self.inflight.on_sent(meta, &self.estimator) {
                Some(rto) => {
                    let d = add_sat(now, rto);
                    self.rto_deadlines.push((pn, d));
                    proof {
                        lemma_timers_push(ps0, dl0, self.packetizer.current.header.packet_num, gm, d);
                        assert forall|x: PacketMeta| #[trigger] self.inflight.packets@.contains(x) implies old(
                            self).inflight.packets@.contains(x) || x.packet_num >= lo@ by {
                            let i = choose|i: int| 0 <= i < self.inflight.packets@.len() && self.inflight.packets@[i] == x;
                            if i < ps0.len() {
                                assert(ps0[i] == x);
                                assert(ps0.contains(x));
                            }
                        }
                        assert(self.rto_deadlines@.subrange(0, old(self).rto_deadlines@.len() as int) =~= dl0.subrange(0, old(self).rto_deadlines@.len() as int));
                    }
                },
                None => {},
            }
        }
    }

    /// Hands a frame to the packetizer and sends what it releases; a frame
    /// that cannot be packed is dropped.
    fn push_frame(&mut self, frame: Frame, now: u64, out: &mut Vec<Vec<u8>>)
        requires
            old(self).wf(),
            all_packets(old(out)@),
        ensures
            final(self).wf(),
            final(self).streams == old(self).streams,
            final(self).ack_sender == old(self).ack_sender,
            final(self).ack_deadline == old(self).ack_deadline,
            all_packets(final(out)@),
            final(out)@.len() >= old(out)@.len(),
            final(out)@.subrange(0, old(out)@.len() as int) == old(out)@,
            final(self).packetizer.current.header.packet_num >= old(self).packetizer.current.header.packet_num,
            within(
                final(self).inflight.packets@,
                old(self).inflight.packets@,
                old(self).packetizer.current.header.packet_num as int,
            ),
            final(self).rto_deadlines@.len() >= old(self).rto_deadlines@.len(),
            final(self).rto_deadlines@.subrange(0, old(self).rto_deadlines@.len() as int) == old(self).rto_deadlines@,
    {
        if !packable(&frame, self.packetizer.packet_num) {
            assert(self.rto_deadlines@.subrange(0, self.rto_deadlines@.len() as int) =~= self.rto_deadlines@);
            assert(out@.subrange(0, out@.len() as int) =~= out@);
            return;
        }
        let ghost cur0 = self.packetizer.current.header.packet_num;
        let (packets, arm) = self.packetizer.handle(frame);
        proof {
            lemma_timers_grow(self.inflight.packets@, self.rto_deadlines@, cur0, self.packetizer.current.header.packet_num);
            assert forall|i: int| 0 <= i < packets@.len() implies cur0 <= (#[trigger] packets@[i]).header.packet_num
                < self.packetizer.current.header.packet_num by {}
        }
        if arm {
            self.packet_deadline = Some(add_sat(now, MAX_PACKET_DELAY_MS * 1000));
        }
        self.transmit(packets, now, out, Ghost(cur0 as int));
    }

    /// Grants more credit on every receiving stream that read past half its window.
    fn update_windows(&mut self, now: u64, out: &mut Vec<Vec<u8>>)
        requires
            old(self).wf(),
            all_packets(old(out)@),
        ensures
            final(self).wf(),
            final(self).ack_sender == old(self).ack_sender,
            all_packets(final(out)@),
            final(out)@.len() >= old(out)@.len(),
            final(out)@.subrange(0, old(out)@.len() as int) == old(out)@,
    {
        let ghost out0 = out@;
        let n = self.streams.recv_streams.len();
        let mut k: usize = 0;
        while k < n
            invariant
                self.wf(),
                self.streams.recv_streams@.len() == n,
                all_packets(out@),
                self.ack_sender == old(self).ack_sender,
                out@.len() >= out0.len(),
                out@.subrange(0, out0.len() as int) == out0,
            decreases n - k,
        {
            let mut s = self.streams.recv_streams.remove(k);
            let mut grant = None;
            if s.should_update() && s.window.consumed() <= u64::MAX - MAX_WINDOW_SIZE {
                grant = s.update();
            }
            self.streams.recv_streams.insert(k, s);
            let ghost before = out@;
            match grant {
                Some(f) => self.push_frame(Frame::MaxStreamData(f), now, out),
                None => {},
            }
            proof {
                assert(out@.subrange(0, out0.len() as int) =~= out@.subrange(0, before.len() as int).subrange(0, out0.len() as int));
            }
            k += 1;
        }
    }

    /// A datagram arrived at `now`; returns the datagrams to send. Its frames
    /// are all handed on before its arrival is acknowledged.
    pub fn on_datagram(&mut self, data: &[u8], now: u64) -> (r: Vec<Vec<u8>>)
        requires
            old(self).wf(),
        ensures
            final(self).wf(),
            all_packets(r@),
            (forall|p: Packet| !#[trigger] encodes(p, data@)) ==> r@.len() == 0 && *final(self) == *old(self),
            !(data@.len() >= HEADER_LEN && frames_fit(data@, HEADER_LEN as int)) ==> r@.len() == 0
                && *final(self) == *old(self),
            data@.len() >= HEADER_LEN && frames_fit(data@, HEADER_LEN as int) ==> exists|
                p: Packet,
                a: AckAction,
                trace: Seq<Connection>,
                res: Seq<Result<usize, StreamError>>,
            | #[trigger] handled(*old(self), data@, now, p, a, trace, res, *final(self)),
    {
        let mut out: Vec<Vec<u8>> = Vec::new();
        let packet = match Packet::decode(data) {
            Some(p) => p,
            None => {
                return out;
            },
        };
        let ghost gp = packet;
        assert(encodes(gp, data@));
        let pn = packet.packet_num();
        let eliciting = packet.is_ack_eliciting();
        let mut frames = packet.into_frames();
        let ghost all = frames@;
        let ghost trace: Seq<Connection> = seq![*self];
        let ghost res: Seq<Result<usize, StreamError>> = Seq::empty();
        while frames.len() > 0
            invariant
                self.wf(),
                out@.len() == 0,
                self.ack_sender == old(self).ack_sender,
                all == gp.frames@,
                frames@.len() <= all.len(),
                frames@ == all.subrange(all.len() - frames@.len(), all.len() as int),
                trace.len() == all.len() - frames@.len() + 1,
                res.len() == all.len() - frames@.len(),
                trace[0] == *old(self),
                trace.last() == *self,
                forall|k: int|
                    #![trigger trace[k]]
                    0 <= k < all.len() - frames@.len() ==> frame_step(trace[k], all[k], res[k], trace[k + 1]),
            decreases frames@.len(),
        {
            let ghost done = all.len() - frames@.len();
            let ghost c0 = *self;
            let ghost step_res: Result<usize, StreamError> = Ok(0);
            assert(frames@[0] == all[done]);
            let frame = frames.remove(0);
            let ghost gf = frame;
            match frame {
                Frame::Ack(ack) => {
                    let ghost ps1 = self.inflight.packets@;
                    let acked = self.inflight.on_ack(&ack, now, &mut self.estimator);
                    proof {
                        let ps2 = self.inflight.packets@;
                        if ps2 != ps1 {
                            let st = decode_frame(ack.largest_ack, ack.first_ack_range, ack.ack_ranges@).unwrap();
                            assert(ps2 == unacked(ps1, st.0));
                            assert forall|x: PacketMeta| #[trigger] ps2.contains(x) implies ps1.contains(x) by {
                                lemma_filtered_members(ps1, st.0, x);
                            }
                        } else {
                            assert forall|x: PacketMeta| #[trigger] ps2.contains(x) implies ps1.contains(x) by {}
                        }
                        lemma_timers_sub(ps1, ps2, self.rto_deadlines@, self.packetizer.current.header.packet_num);
                    }
                    let mut i: usize = 0;
                    let ghost after_ack = *self;
                    while i < acked.len()
                        invariant
                            self.wf(),
                            self.ack_sender == old(self).ack_sender,
                            self.inflight == after_ack.inflight,
                            self.packetizer == after_ack.packetizer,
                            self.rto_deadlines == after_ack.rto_deadlines,
                            self.streams == after_ack.streams,
                        decreases acked@.len() - i,
                    {
                        self.congestion.on_ack(acked[i].sent, acked[i].bytes);
                        i += 1;
                    }
                    let _ = self.streams.on_acked(&acked);
                },
                Frame::Stream(f) => {
                    let got = self.streams.dispatch(StreamFrame::Data(f));
                    proof {
                        step_res = got;
                    }
                },
                Frame::MaxStreamData(f) => {
                    let got = self.streams.dispatch(StreamFrame::MaxData(f));
                    proof {
                        step_res = got;
                    }
                },
                Frame::Handshake(_) => {},
            }
            proof {
                assert(frame_step(c0, gf, step_res, *self));
                let t2 = trace.push(*self);
                let r2 = res.push(step_res);
                assert forall|k: int|
                    #![trigger t2[k]]
                    0 <= k < done + 1 implies frame_step(t2[k], all[k], r2[k], t2[k + 1]) by {
                    if k < done {
                        assert(t2[k] == trace[k] && t2[k + 1] == trace[k + 1] && r2[k] == res[k]);
                    }
                }
                trace = t2;
                res = r2;
                assert(frames@ =~= all.subrange(all.len() - frames@.len(), all.len() as int));
            }
        }
        let ghost action: AckAction = AckAction::Nothing;
        let ghost fed = self.ack_sender;
        if pn < u64::MAX {
            let act = self.ack_sender.on_recv(pn, eliciting, now, now);
            proof {
                action = act;
                fed = self.ack_sender;
            }
            match act {
                AckAction::Nothing => {},
                AckAction::ArmTimer => {
                    self.ack_deadline = Some(add_sat(now, self.max_ack_delay));
                },
                AckAction::Send { frame, cancel_timer } => {
                    if cancel_timer {
                        self.ack_deadline = None;
                    }
                    self.push_frame(Frame::Ack(frame), now, &mut out);
                },
            }
        }
        assert(ack_fed(old(self).ack_sender, gp, action, now, fed));
        self.update_windows(now, &mut out);
        assert(handled(*old(self), data@, now, gp, action, trace, res, *self));
        out
    }

    /// Time has come to `now`: fires the timers that are due, then hands out
    /// one tick's byte budget to the streams. Returns the datagrams to send.
    pub fn on_wake(&mut self, now: u64) -> (r: Vec<Vec<u8>>)
        requires
            old(self).wf(),
        ensures
            final(self).wf(),
            all_packets(r@),
            (old(self).packet_deadline matches Some(d) && d <= now) && old(self).packetizer.current.frames@.len()
                > 0 && old(self).packetizer.packet_num < u64::MAX ==> r@.len() > 0 && encodes(
                old(self).packetizer.current,
                r@[0]@,
            ),
            (old(self).ack_deadline matches Some(d) && d <= now) ==> exists|f: Option<AckFrame>|
                #[trigger] old(self).ack_sender.timeout_post(f, final(self).ack_sender),
            !(old(self).ack_deadline matches Some(d) && d <= now) ==> final(self).ack_sender == old(self).ack_sender,
            forall|k: int|
                0 <= k < old(self).rto_deadlines@.len() && (#[trigger] old(self).rto_deadlines@[k]).1 <= now
                    ==> !holds(final(self).inflight.packets@, old(self).rto_deadlines@[k].0),
    {
        let mut out: Vec<Vec<u8>> = Vec::new();
        let pd = self.packet_deadline;
        match pd {
            Some(d) => {
                if d <= now {
                    self.packet_deadline = None;
                    if self.packetizer.packet_num < u64::MAX {
                        let ghost cur0 = self.packetizer.current.header.packet_num;
                        let packets = self.packetizer.on_timeout();
                        proof {
                            lemma_timers_grow(self.inflight.packets@, self.rto_deadlines@, cur0, self.packetizer.current.header.packet_num);
                        }
                        self.transmit(packets, now, &mut out, Ghost(cur0 as int));
                    }
                }
            },
            None => {},
        }
        assert(self.ack_sender == old(self).ack_sender);
        let ghost out1 = out@;
        let ghost fired: Option<AckFrame> = None;
        let ad = self.ack_deadline;
        match ad {
            Some(d) => {
                if d <= now {
                    self.ack_deadline = None;
                    let ghost as0 = self.ack_sender;
                    let got = self.ack_sender.on_timeout();
                    proof {
                        fired = got;
                        assert(as0.timeout_post(got, self.ack_sender));
                    }
                    match got {
                        Some(frame) => self.push_frame(Frame::Ack(frame), now, &mut out),
                        None => {},
                    }
                }
            },
            None => {},
        }
        let ghost as1 = self.ack_sender;
        proof {
            match old(self).ack_deadline {
                Some(d) => {
                    if d <= now {
                        assert(old(self).ack_sender.timeout_post(fired, as1));
                    } else {
                        assert(as1 == old(self).ack_sender);
                    }
                },
                None => {
                    assert(as1 == old(self).ack_sender);
                },
            }
        }
        let ghost dl0 = self.rto_deadlines@;
        let ghost cur0 = self.packetizer.current.header.packet_num;
        let mut due: Vec<u64> = Vec::new();
        let mut kept: Vec<(u64, u64)> = Vec::new();
        let mut k: usize = 0;
        while k < self.rto_deadlines.len()
            invariant
                self.wf(),
                all_packets(out@),
                self.ack_sender == as1,
                out@.len() >= out1.len() && out@.subrange(0, out1.len() as int) == out1,
                self.rto_deadlines@ == dl0,
                self.packetizer.current.header.packet_num == cur0,
                k <= dl0.len(),
                forall|t: int| 0 <= t < k && (#[trigger] dl0[t]).1 <= now ==> due@.contains(dl0[t].0),
                forall|t: int| 0 <= t < k && (#[trigger] dl0[t]).1 > now ==> kept@.contains(dl0[t]),
                forall|t: int| 0 <= t < due@.len() ==> (#[trigger] due@[t]) < cur0,
                forall|t: int| 0 <= t < kept@.len() ==> (#[trigger] kept@[t]).0 < cur0,
            decreases self.rto_deadlines@.len() - k,
        {
            let (pn, d) = self.rto_deadlines[k];
            let ghost due0 = due@;
            let ghost kept0 = kept@;
            if d <= now {
                due.push(pn);
            } else {
                kept.push((pn, d));
            }
            proof {
                assert forall|t: int| 0 <= t < k + 1 && (#[trigger] dl0[t]).1 <= now implies due@.contains(dl0[t].0) by {
                    if t < k {
                        let x = choose|x: int| 0 <= x < due0.len() && due0[x] == dl0[t].0;
                        assert(due@[x] == due0[x]);
                    } else {
                        assert(due@[due@.len() - 1] == pn);
                    }
                }
                assert forall|t: int| 0 <= t < k + 1 && (#[trigger] dl0[t]).1 > now implies kept@.contains(dl0[t]) by {
                    if t < k {
                        let x = choose|x: int| 0 <= x < kept0.len() && kept0[x] == dl0[t];
                        assert(kept@[x] == kept0[x]);
                    } else {
                        assert(kept@[kept@.len() - 1] == dl0[t]);
                    }
                }
            }
            k += 1;
        }
        let ghost ps0 = self.inflight.packets@;
        proof {
            assert forall|i: int| 0 <= i < ps0.len() implies armed(kept@, (#[trigger] ps0[i]).packet_num) || exists|t: int|
                0 <= t < due@.len() && due@[t] == ps0[i].packet_num by {
                let kk = choose|kk: int| 0 <= kk < dl0.len() && (#[trigger] dl0[kk]).0 == ps0[i].packet_num;
                if dl0[kk].1 <= now {
                    assert(due@.contains(dl0[kk].0));
                } else {
                    assert(kept@.contains(dl0[kk]));
                    let x = choose|x: int| 0 <= x < kept@.len() && kept@[x] == dl0[kk];
                    assert(kept@[x].0 == ps0[i].packet_num);
                }
            }
        }
        self.rto_deadlines = kept;
        let mut grants_all: Vec<MaxStreamDataFrame> = Vec::new();
        let mut j: usize = 0;
        while j < due.len()
            invariant
                self.packetizer.wf(),
                self.ack_sender.wf(),
                self.estimator.wf(),
                self.congestion.wf(),
                self.streams.wf(),
                self.ack_sender == as1,
                self.packetizer.current.header.packet_num == cur0,
                out@.len() >= out1.len() && out@.subrange(0, out1.len() as int) == out1,
                all_packets(out@),
                j <= due@.len(),
                forall|t: int| 0 <= t < due@.len() ==> (#[trigger] due@[t]) < cur0,
                forall|t: int| 0 <= t < self.rto_deadlines@.len() ==> (#[trigger] self.rto_deadlines@[t]).0 < cur0,
                forall|i: int| 0 <= i < self.inflight.packets@.len() ==> (#[trigger] self.inflight.packets@[i]).packet_num < cur0,
                forall|i: int| 0 <= i < self.inflight.packets@.len() ==> armed(self.rto_deadlines@, (#[trigger] self.inflight.packets@[i]).packet_num)
                    || exists|t: int| j <= t < due@.len() && due@[t] == self.inflight.packets@[i].packet_num,
                forall|t: int| 0 <= t < j ==> !holds(self.inflight.packets@, #[trigger] due@[t]),
            decreases due@.len() - j,
        {
            let ghost ps1 = self.inflight.packets@;
            let q = due[j];
            let lost = self.inflight.on_rto(q);
            let ghost found = lost is Some;
            match lost {
                Some(meta) => {
                    self.congestion.on_loss(now, meta.sent, meta.bytes);
                    let mut grants = self.streams.on_lost(&meta);
                    grants_all.append(&mut grants);
                },
                None => {},
            }
            proof {
                let ps2 = self.inflight.packets@;
                if found {
                    assert(ps2 == unacked(ps1, set![q as int]));
                    assert forall|x: PacketMeta| #[trigger] ps2.contains(x) implies ps1.contains(x) && x.packet_num != q by {
                        lemma_filtered_members(ps1, set![q as int], x);
                        lemma_acked_or_tracked(ps1, set![q as int], x);
                    }
                } else {
                    assert(!holds(ps1, q));
                    assert forall|x: PacketMeta| #[trigger] ps2.contains(x) implies ps1.contains(x) && x.packet_num != q by {
                        let i = choose|i: int| 0 <= i < ps1.len() && ps1[i] == x;
                    }
                }
                assert forall|i: int| 0 <= i < ps2.len() implies (#[trigger] ps2[i]).packet_num < cur0 && (armed(self.rto_deadlines@, ps2[i].packet_num)
                    || exists|t: int| j + 1 <= t < due@.len() && due@[t] == ps2[i].packet_num) by {
                    assert(ps2.contains(ps2[i]));
                    let i1 = choose|i1: int| 0 <= i1 < ps1.len() && ps1[i1] == ps2[i];
                    assert(ps1[i1].packet_num < cur0);
                    if !armed(self.rto_deadlines@, ps2[i].packet_num) {
                        let t = choose|t: int| j <= t < due@.len() && due@[t] == ps1[i1].packet_num;
                        assert(t != j);
                    }
                }
                assert forall|t: int| 0 <= t < j + 1 implies !holds(ps2, #[trigger] due@[t]) by {
                    if holds(ps2, due@[t]) {
                        let i = choose|i: int| 0 <= i < ps2.len() && (#[trigger] ps2[i]).packet_num == due@[t];
                        assert(ps2.contains(ps2[i]));
                        let i1 = choose|i1: int| 0 <= i1 < ps1.len() && ps1[i1] == ps2[i];
                        if t < j {
                            assert(holds(ps1, due@[t]));
                        }
                    }
                }
            }
            j += 1;
        }
        proof {
            assert forall|i: int| 0 <= i < self.inflight.packets@.len() implies armed(self.rto_deadlines@, (#[trigger] self.inflight.packets@[i]).packet_num) by {}
            assert forall|t: int| 0 <= t < old(self).rto_deadlines@.len() && (#[trigger] old(self).rto_deadlines@[t]).1 <= now
                implies due@.contains(old(self).rto_deadlines@[t].0) by {
                assert(dl0.subrange(0, old(self).rto_deadlines@.len() as int)[t] == dl0[t]);
                assert(dl0[t] == old(self).rto_deadlines@[t]);
            }
        }
        let ghost due_all = due@;
        let mut g: usize = 0;
        while g < grants_all.len()
            invariant
                self.wf(),
                all_packets(out@),
                self.ack_sender == as1,
                out@.len() >= out1.len() && out@.subrange(0, out1.len() as int) == out1,
                self.packetizer.current.header.packet_num >= cur0,
                forall|t: int| 0 <= t < due_all.len() ==> (#[trigger] due_all[t]) < cur0,
                forall|t: int| 0 <= t < due_all.len() ==> !holds(self.inflight.packets@, #[trigger] due_all[t]),
            decreases grants_all@.len() - g,
        {
            let ghost before = out@;
            let ghost ps1 = self.inflight.packets@;
            let ghost c1 = self.packetizer.current.header.packet_num;
            self.push_frame(Frame::MaxStreamData(grants_all[g]), now, &mut out);
            proof {
                lemma_prefix_trans(out1, before, out@);
                assert forall|t: int| 0 <= t < due_all.len() implies !holds(self.inflight.packets@, #[trigger] due_all[t]) by {
                    lemma_not_holds_within(ps1, self.inflight.packets@, c1 as int, due_all[t]);
                }
            }
            g += 1;
        }
        let bytes = budget(self.congestion.window(), self.estimator.rtt());
        let mut frames = self.streams.schedule(bytes);
        while frames.len() > 0
            invariant
                self.wf(),
                all_packets(out@),
                self.ack_sender == as1,
                out@.len() >= out1.len() && out@.subrange(0, out1.len() as int) == out1,
                self.packetizer.current.header.packet_num >= cur0,
                forall|t: int| 0 <= t < due_all.len() ==> (#[trigger] due_all[t]) < cur0,
                forall|t: int| 0 <= t < due_all.len() ==> !holds(self.inflight.packets@, #[trigger] due_all[t]),
            decreases frames@.len(),
        {
            let f = frames.remove(0);
            let ghost before = out@;
            let ghost ps1 = self.inflight.packets@;
            let ghost c1 = self.packetizer.current.header.packet_num;
            self.push_frame(Frame::Stream(f), now, &mut out);
            proof {
                lemma_prefix_trans(out1, before, out@);
                assert forall|t: int| 0 <= t < due_all.len() implies !holds(self.inflight.packets@, #[trigger] due_all[t]) by {
                    lemma_not_holds_within(ps1, self.inflight.packets@, c1 as int, due_all[t]);
                }
            }
        }
        proof {
            assert forall|k: int|
                0 <= k < old(self).rto_deadlines@.len() && (#[trigger] old(self).rto_deadlines@[k]).1 <= now
                    implies !holds(self.inflight.packets@, old(self).rto_deadlines@[k].0) by {
                let x = choose|x: int| 0 <= x < due_all.len() && due_all[x] == old(self).rto_deadlines@[k].0;
                assert(!holds(self.inflight.packets@, due_all[x]));
            }
            if (old(self).packet_deadline matches Some(d) && d <= now) && old(self).packetizer.current.frames@.len()
                > 0 && old(self).packetizer.packet_num < u64::MAX {
                assert(out1.len() > 0);
                assert(out@.subrange(0, out1.len() as int)[0] == out@[0]);
            }
            if old(self).ack_deadline matches Some(d) && d <= now {
                assert(old(self).ack_sender.timeout_post(fired, self.ack_sender));
            }
        }
        out
    }

    /// The earliest time at which `on_wake` has a timer to fire.
    pub fn next_deadline(&self) -> (r: Option<u64>)
        ensures
            r is None <==> self.packet_deadline is None && self.ack_deadline is None
                && self.rto_deadlines@.len() == 0,
    {
        let mut best: Option<u64> = self.packet_deadline;
        match self.ack_deadline {
            Some(d) => {
                best = match best {
                    Some(b) => Some(if d < b { d } else { b }),
                    None => Some(d),
                };
            },
            None => {},
        }
        let mut k: usize = 0;
        while k < self.rto_deadlines.len()
            invariant
                k <= self.rto_deadlines@.len(),
                best is None <==> self.packet_deadline is None && self.ack_deadline is None && k == 0,
            decreases self.rto_deadlines@.len() - k,
        {
            let d = self.rto_deadlines[k].1;
            best = match best {
                Some(b) => Some(if d < b { d } else { b }),
                None => Some(d),
            };
            k += 1;
        }
        best
    }

    /// Everything but the streams is as in `self`.
    pub open spec fn same_but_streams(self, next: Self) -> bool {
        &&& next.id == self.id
        &&& next.packetizer == self.packetizer
        &&& next.packet_deadline == self.packet_deadline
        &&& next.ack_sender == self.ack_sender
        &&& next.ack_deadline == self.ack_deadline
        &&& next.inflight == self.inflight
        &&& next.rto_deadlines == self.rto_deadlines
        &&& next.estimator == self.estimator
        &&& next.congestion == self.congestion
        &&& next.max_ack_delay == self.max_ack_delay
    }

    /// Opens the next stream of this side.
    pub fn open(&mut self) -> (r: Option<u16>)
        requires
            old(self).wf(),
        ensures
            final(self).wf(),
            old(self).same_but_streams(*final(self)),
            old(self).streams.open_post(r, final(self).streams),
    {
        self.streams.open()
    }

    /// The next stream that the peer opened.
    pub fn accept(&mut self) -> (r: AcceptOutcome)
        requires
            old(self).wf(),
        ensures
            final(self).wf(),
            old(self).same_but_streams(*final(self)),
            old(self).streams.accept_post(r, final(self).streams),
    {
        self.streams.accept()
    }

    /// Writes the application's bytes to sending stream `id`.
    pub fn send(&mut self, id: u16, data: &[u8]) -> (r: Result<usize, StreamError>)
        requires
            old(self).wf(),
        ensures
            final(self).wf(),
            old(self).same_but_streams(*final(self)),
            old(self).streams.write_stream_post(id, data@, r, final(self).streams),
    {
        self.streams.write_stream(id, data)
    }

    /// The application wrote the last byte of stream `id`.
    pub fn wrote(&mut self, id: u16)
        requires
            old(self).wf(),
        ensures
            final(self).wf(),
            old(self).same_but_streams(*final(self)),
            old(self).streams.set_wrote_stream_post(id, final(self).streams),
    {
        self.streams.set_wrote_stream(id)
    }

    /// Bytes of sending stream `id` written and not yet acknowledged.
    pub fn unacked(&mut self, id: u16) -> (r: u64)
        requires
            old(self).wf(),
        ensures
            final(self).wf(),
            old(self).same_but_streams(*final(self)),
            old(self).streams.get_send_post(id, send_index(final(self).streams.send_streams@, id) as usize, final(self).streams),
            r == final(self).streams.send_streams@[send_index(final(self).streams.send_streams@, id)].window.wrote_offset
                - final(self).streams.send_streams@[send_index(final(self).streams.send_streams@, id)].window.acked_spec(),
    {
        let i = self.streams.get_send(id);
        proof {
            lemma_send_index(self.streams.send_streams@, i as int, id);
        }
        let s = &self.streams.send_streams[i];
        assert(s.wf());
        s.window.wrote_offset - s.window.acked()
    }

    /// Reads up to `len` bytes of receiving stream `id`, in stream order;
    /// returns what to send as well, since reading may grant the peer more
    /// credit.
    pub fn recv(&mut self, id: u16, len: usize, now: u64) -> (r: (ReadOutcome, Vec<Vec<u8>>))
        requires
            old(self).wf(),
        ensures
            final(self).wf(),
            all_packets(r.1@),
            exists|mid: StreamsInner| #[trigger] old(self).streams.read_stream_post(id, len, r.0, mid),
    {
        let got = self.streams.read_stream(id, len);
        let ghost mid = self.streams;
        let mut out: Vec<Vec<u8>> = Vec::new();
        self.update_windows(now, &mut out);
        assert(old(self).streams.read_stream_post(id, len, got, mid));
        let r = (got, out);
        assert(old(self).streams.read_stream_post(id, len, r.0, mid));
        r
    }

    /// Every stream is finished: all sent bytes acknowledged, all received
    /// bytes read.
    pub fn close_ready(&self) -> (r: bool)
        ensures
            r == ((forall|i: int| 0 <= i < self.streams.send_streams@.len() ==> (#[trigger] self.streams.send_streams@[i]).state
                == crate::stream::SendState::DataRecvd) && (forall|i: int|
                0 <= i < self.streams.recv_streams@.len() ==> (#[trigger] self.streams.recv_streams@[i]).state
                    == crate::stream::RecvState::DataRead)),
    {
        self.streams.all_closed()
    }
}

} // verus!
