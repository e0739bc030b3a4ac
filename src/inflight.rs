use crate::ack::{decode_frame, AckFrame, AckSpans};
use crate::congestion::{RttEstimator, RTT_LIMIT_MICROS};
use crate::packet::PacketMeta;
use std::collections::VecDeque;
use vstd::prelude::*;

verus! {

/// The packets of `ps` whose numbers `set` does not hold, in order.
pub open spec fn unacked(ps: Seq<PacketMeta>, set: Set<int>) -> Seq<PacketMeta>
    decreases ps.len(),
{
    if ps.len() == 0 {
        ps
    } else if set.contains(ps.last().packet_num as int) {
        unacked(ps.drop_last(), set)
    } else {
        unacked(ps.drop_last(), set).push(ps.last())
    }
}

/// The packets of `ps` whose numbers `set` holds, in order.
pub open spec fn acked(ps: Seq<PacketMeta>, set: Set<int>) -> Seq<PacketMeta>
    decreases ps.len(),
{
    if ps.len() == 0 {
        ps
    } else if set.contains(ps.last().packet_num as int) {
        acked(ps.drop_last(), set).push(ps.last())
    } else {
        acked(ps.drop_last(), set)
    }
}

/// Some packet of `ps` has number `pn`.
pub open spec fn holds(ps: Seq<PacketMeta>, pn: u64) -> bool {
    exists|i: int| 0 <= i < ps.len() && (#[trigger] ps[i]).packet_num == pn
}

/// `now - then`, or zero if `now` is earlier.
pub open spec fn elapsed(then: u64, now: u64) -> u64 {
    if now >= then {
        (now - then) as u64
    } else {
        0
    }
}

/// Ack-eliciting packets that were sent and are neither acknowledged nor
/// declared lost, oldest first. The caller keeps one retransmission timer
/// for each.
pub struct Inflight {
    pub packets: VecDeque<PacketMeta>,
}

impl Inflight {
    pub fn new() -> (r: Self)
        ensures
            r.packets@.len() == 0,
    {
        Inflight { packets: VecDeque::new() }
    }

    /// A packet was sent. Ack-eliciting ones are tracked, and the result is
    /// the timeout after which the caller declares it lost; others are not.
    pub fn on_sent(&mut self, meta: PacketMeta, estimator: &RttEstimator) -> (r: Option<u64>)
        requires
            estimator.wf(),
        ensures
            !meta.is_ack_eliciting ==> r is None && final(self).packets@ == old(self).packets@,
            meta.is_ack_eliciting ==> r == Some(
                (estimator.rtt_spec() + 4 * estimator.var + estimator.max_ack_delay) as u64,
            ) && final(self).packets@ == old(self).packets@.push(meta),
    {
        if !meta.is_ack_eliciting {
            return None;
        }
        let rto = estimator.rto();
        self.packets.push_back(meta);
        Some(rto)
    }

    /// The timer of packet `pn` fired: if it is still tracked it is lost,
    /// and its record is handed back.
    pub fn on_rto(&mut self, pn: u64) -> (r: Option<PacketMeta>)
        ensures
            r is Some <==> holds(old(self).packets@, pn),
            r is None ==> final(self).packets@ == old(self).packets@,
            r matches Some(m) ==> m.packet_num == pn && old(self).packets@.contains(m)
                && final(self).packets@ == unacked(old(self).packets@, set![pn as int]),
    {
        let ghost orig = self.packets@;
        let mut found: Option<PacketMeta> = None;
        let mut kept: VecDeque<PacketMeta> = VecDeque::new();
        while self.packets.len() > 0
            invariant
                self.packets@.len() <= orig.len(),
                ({
                    let k = orig.len() - self.packets@.len();
                    &&& self.packets@ == orig.subrange(k, orig.len() as int)
                    &&& kept@ == unacked(orig.subrange(0, k), set![pn as int])
                    &&& (found is Some <==> holds(orig.subrange(0, k), pn))
                    &&& (found matches Some(m) ==> m.packet_num == pn && orig.contains(m))
                }),
            decreases self.packets@.len(),
        {
            let ghost k = orig.len() - self.packets@.len();
            let m = self.packets.pop_front().unwrap();
            proof {
                assert(orig.subrange(0, k + 1).drop_last() =~= orig.subrange(0, k));
                assert(orig.subrange(0, k + 1).last() == orig[k]);
                assert(orig[k] == m);
                if holds(orig.subrange(0, k), pn) {
                    let i = choose|i: int| 0 <= i < k && (#[trigger] orig.subrange(0, k)[i]).packet_num == pn;
                    assert(orig.subrange(0, k + 1)[i] == orig.subrange(0, k)[i]);
                }
                if m.packet_num == pn {
                    assert(orig.subrange(0, k + 1)[k] == m);
                }
                if holds(orig.subrange(0, k + 1), pn) && m.packet_num != pn {
                    let i = choose|i: int| 0 <= i < k + 1 && (#[trigger] orig.subrange(0, k + 1)[i]).packet_num == pn;
                    assert(orig.subrange(0, k)[i] == orig.subrange(0, k + 1)[i]);
                }
            }
            if m.packet_num == pn {
                if found.is_none() {
                    found = Some(m);
                }
            } else {
                kept.push_back(m);
            }
            proof {
                assert(self.packets@ =~= orig.subrange(k + 1, orig.len() as int));
            }
        }
        proof {
            assert(orig.subrange(0, orig.len() as int) =~= orig);
        }
        if found.is_none() {
            self.packets = kept;
            proof {
                lemma_unacked_none(orig, pn);
            }
            return None;
        }
        self.packets = kept;
        found
    }

    /// An ACK frame arrived at `recv_instant`. Every tracked packet that it
    /// acknowledges is handed back, oldest first, and no longer tracked. If
    /// the largest acknowledged packet was still tracked, its round trip is
    /// sampled. A frame whose ranges run out of bounds acknowledges nothing.
    pub fn on_ack(&mut self, frame: &AckFrame, recv_instant: u64, estimator: &mut RttEstimator) -> (r: Vec<PacketMeta>)
        requires
            old(estimator).wf(),
        ensures
            final(estimator).wf(),
            ({
                let decoded = decode_frame(frame.largest_ack, frame.first_ack_range, frame.ack_ranges@);
                let ps = old(self).packets@;
                &&& decoded is None ==> r@.len() == 0 && final(self).packets@ == ps
                    && *final(estimator) == *old(estimator)
                &&& decoded matches Some(st) ==> {
                    &&& r@ == acked(ps, st.0)
                    &&& final(self).packets@ == unacked(ps, st.0)
                    &&& !holds(ps, frame.largest_ack) ==> *final(estimator) == *old(estimator)
                    &&& holds(ps, frame.largest_ack) ==> exists|i: int|
                        #![trigger ps[i]]
                        0 <= i < ps.len() && ps[i].packet_num == frame.largest_ack && (forall|j: int|
                            0 <= j < i ==> (#[trigger] ps[j]).packet_num != frame.largest_ack) && ({
                            let rtt = elapsed(ps[i].sent, recv_instant);
                            let delay = frame.delay * 1000;
                            &&& rtt <= RTT_LIMIT_MICROS && delay <= RTT_LIMIT_MICROS ==> *final(estimator)
                                == old(estimator).updated(delay as u64, rtt)
                            &&& !(rtt <= RTT_LIMIT_MICROS && delay <= RTT_LIMIT_MICROS)
                                ==> *final(estimator) == *old(estimator)
                        })
                }
            }),
    {
        let spans = match AckSpans::from_frame(frame) {
            Some(s) => s,
            None => {
                return Vec::new();
            },
        };
        let ghost set = spans.set_view()@;
        let ghost ps = self.packets@;
        let largest = frame.largest_ack;
        let mut i: usize = 0;
        while i < self.packets.len() && self.packets[i].packet_num != largest
            invariant
                ps == self.packets@,
                i <= ps.len(),
                forall|j: int| 0 <= j < i ==> (#[trigger] ps[j]).packet_num != largest,
            decreases ps.len() - i,
        {
            i += 1;
        }
        if i < self.packets.len() {
            let sent = self.packets[i].sent;
            let rtt = if recv_instant >= sent {
                recv_instant - sent
            } else {
                0
            };
            if rtt <= RTT_LIMIT_MICROS && frame.delay <= RTT_LIMIT_MICROS / 1000 {
                estimator.update(frame.delay * 1000, rtt);
            }
        } else {
            proof {
                assert forall|j: int| 0 <= j < ps.len() implies (#[trigger] ps[j]).packet_num != largest by {}
            }
        }
        let mut got: Vec<PacketMeta> = Vec::new();
        let mut kept: VecDeque<PacketMeta> = VecDeque::new();
        while self.packets.len() > 0
            invariant
                set == spans.set_view()@,
                spans.wf(),
                self.packets@.len() <= ps.len(),
                ({
                    let k = ps.len() - self.packets@.len();
                    &&& self.packets@ == ps.subrange(k, ps.len() as int)
                    &&& kept@ == unacked(ps.subrange(0, k), set)
                    &&& got@ == acked(ps.subrange(0, k), set)
                }),
            decreases self.packets@.len(),
        {
            let ghost k = ps.len() - self.packets@.len();
            let m = self.packets.pop_front().unwrap();
            proof {
                assert(ps.subrange(0, k + 1).drop_last() =~= ps.subrange(0, k));
                assert(ps.subrange(0, k + 1).last() == m);
            }
            if spans.contains(m.packet_num) {
                got.push(m);
            } else {
                kept.push_back(m);
            }
            proof {
                assert(self.packets@ =~= ps.subrange(k + 1, ps.len() as int));
            }
        }
        proof {
            assert(ps.subrange(0, ps.len() as int) =~= ps);
        }
        self.packets = kept;
        got
    }
}

proof fn lemma_unacked_none(ps: Seq<PacketMeta>, pn: u64)
    requires
        !holds(ps, pn),
    ensures
        unacked(ps, set![pn as int]) == ps,
    decreases ps.len(),
{
    if ps.len() > 0 {
        assert(!holds(ps.drop_last(), pn)) by {
            if holds(ps.drop_last(), pn) {
                let i = choose|i: int| 0 <= i < ps.len() - 1 && (#[trigger] ps.drop_last()[i]).packet_num == pn;
                assert(ps[i] == ps.drop_last()[i]);
            }
        }
        lemma_unacked_none(ps.drop_last(), pn);
        assert(ps[ps.len() - 1].packet_num != pn);
        assert(ps.drop_last().push(ps.last()) =~= ps);
    }
}

/// Each tracked packet is either acknowledged by a set of packet numbers or
/// stays tracked, never both: an ACK and a loss never report the same packet.
pub proof fn lemma_acked_or_tracked(ps: Seq<PacketMeta>, set: Set<int>, m: PacketMeta)
    requires
        ps.contains(m),
    ensures
        acked(ps, set).contains(m) <==> set.contains(m.packet_num as int),
        unacked(ps, set).contains(m) <==> !set.contains(m.packet_num as int),
    decreases ps.len(),
{
    if ps.last() == m {
        if ps.drop_last().contains(m) {
            lemma_acked_or_tracked(ps.drop_last(), set, m);
        }
        lemma_filtered_members(ps.drop_last(), set, m);
        if set.contains(m.packet_num as int) {
            assert(acked(ps, set).last() == m);
        } else {
            assert(unacked(ps, set).last() == m);
        }
    } else {
        let i = choose|i: int| 0 <= i < ps.len() && ps[i] == m;
        assert(ps.drop_last()[i] == m);
        lemma_acked_or_tracked(ps.drop_last(), set, m);
        if set.contains(ps.last().packet_num as int) {
            assert(acked(ps, set) == acked(ps.drop_last(), set).push(ps.last()));
            if acked(ps, set).contains(m) {
                let j = choose|j: int| 0 <= j < acked(ps, set).len() && acked(ps, set)[j] == m;
                assert(acked(ps.drop_last(), set)[j] == m);
            }
            if acked(ps.drop_last(), set).contains(m) {
                let j = choose|j: int| 0 <= j < acked(ps.drop_last(), set).len() && acked(ps.drop_last(), set)[j] == m;
                assert(acked(ps, set)[j] == m);
            }
        } else {
            assert(unacked(ps, set) == unacked(ps.drop_last(), set).push(ps.last()));
            if unacked(ps, set).contains(m) {
                let j = choose|j: int| 0 <= j < unacked(ps, set).len() && unacked(ps, set)[j] == m;
                assert(unacked(ps.drop_last(), set)[j] == m);
            }
            if unacked(ps.drop_last(), set).contains(m) {
                let j = choose|j: int| 0 <= j < unacked(ps.drop_last(), set).len() && unacked(ps.drop_last(), set)[j] == m;
                assert(unacked(ps, set)[j] == m);
            }
        }
    }
}

/// What the filters keep of `ps` comes from `ps`.
pub proof fn lemma_filtered_members(ps: Seq<PacketMeta>, set: Set<int>, m: PacketMeta)
    ensures
        acked(ps, set).contains(m) ==> ps.contains(m),
        unacked(ps, set).contains(m) ==> ps.contains(m),
    decreases ps.len(),
{
    if ps.len() > 0 {
        lemma_filtered_members(ps.drop_last(), set, m);
        if acked(ps, set).contains(m) {
            let j = choose|j: int| 0 <= j < acked(ps, set).len() && acked(ps, set)[j] == m;
            if set.contains(ps.last().packet_num as int) && j == acked(ps, set).len() - 1 {
                assert(ps[ps.len() - 1] == m);
            } else {
                assert(acked(ps.drop_last(), set)[j] == m);
                let i = choose|i: int| 0 <= i < ps.len() - 1 && ps.drop_last()[i] == m;
                assert(ps[i] == m);
            }
        }
        if unacked(ps, set).contains(m) {
            let j = choose|j: int| 0 <= j < unacked(ps, set).len() && unacked(ps, set)[j] == m;
            if !set.contains(ps.last().packet_num as int) && j == unacked(ps, set).len() - 1 {
                assert(ps[ps.len() - 1] == m);
            } else {
                assert(unacked(ps.drop_last(), set)[j] == m);
                let i = choose|i: int| 0 <= i < ps.len() - 1 && ps.drop_last()[i] == m;
                assert(ps[i] == m);
            }
        }
    }
}

} // verus!
