use crate::ack::{encoded_first, encoded_largest, encoded_ranges, AckFrame, AckSpans};
use vstd::prelude::*;

verus! {

/// In-order ack-eliciting packets that are acknowledged together.
pub const DEFAULT_ACK_WAIT_COUNT: u64 = 2;

/// Whether an acknowledgement is being held back.
#[derive(Debug, Clone, Copy, PartialEq, Eq, Structural)]
pub enum AckState {
    /// No acknowledgement is pending.
    Idle,
    /// This many in-order ack-eliciting packets wait for one acknowledgement,
    /// and the max-ack-delay timer runs.
    Waiting(u64),
}

/// What the caller does after a packet arrives or the timer fires.
#[derive(Debug)]
pub enum AckAction {
    Nothing,
    /// Arm the max-ack-delay timer.
    ArmTimer,
    /// Send `frame` now, cancelling the max-ack-delay timer first where
    /// `cancel_timer` says so.
    Send { frame: AckFrame, cancel_timer: bool },
}

/// The kind of step taken on an arrival.
#[derive(Debug, Clone, Copy, PartialEq, Eq, Structural)]
pub enum AckStep {
    Nothing,
    Arm,
    Send,
    CancelAndSend,
}

/// State, largest acknowledged number and step after packet `pn` arrives.
pub open spec fn recv_step(state: AckState, acked: u64, wait_count: u64, pn: u64, eliciting: bool) -> (
    AckState,
    u64,
    AckStep,
) {
    if !eliciting {
        (AckState::Idle, if pn > acked { pn } else { acked }, AckStep::Nothing)
    } else {
        match state {
            AckState::Idle => {
                if pn == acked + 1 {
                    (AckState::Waiting(1), acked, AckStep::Arm)
                } else {
                    (AckState::Idle, if pn >= acked + 2 { pn } else { acked }, AckStep::Send)
                }
            },
            AckState::Waiting(count) => {
                if pn == acked + count + 1 && count + 1 < wait_count {
                    (AckState::Waiting((count + 1) as u64), acked, AckStep::Nothing)
                } else {
                    (
                        AckState::Idle,
                        if pn > acked + count { pn } else { (acked + count) as u64 },
                        AckStep::CancelAndSend,
                    )
                }
            },
        }
    }
}

/// Microseconds from `instant` to `now`, in whole milliseconds; zero if
/// `now` is earlier.
pub open spec fn delay_ms(instant: u64, now: u64) -> u64 {
    if now >= instant {
        ((now - instant) / 1000) as u64
    } else {
        0
    }
}

/// The receiver side of acknowledgement: which packet numbers have arrived,
/// and when to tell the peer.
#[derive(Debug)]
pub struct AckSender {
    pub state: AckState,
    /// Every packet number received so far.
    pub spans: AckSpans,
    /// The largest packet number acknowledged so far; an ack-eliciting packet
    /// right after it starts a batch.
    pub acked: u64,
    /// How many in-order packets make a batch.
    pub wait_count: u64,
    /// The peer's promise on how long it may hold an ACK back, in milliseconds.
    pub max_ack_delay: u64,
}

impl AckSender {
    pub open spec fn wf(&self) -> bool {
        &&& self.spans.wf()
        &&& self.state matches AckState::Waiting(c) ==> 1 <= c && self.acked + c < u64::MAX
    }

    pub fn new(max_ack_delay: u64) -> (r: Self)
        ensures
            r.wf(),
            r.state == AckState::Idle,
            r.spans.set_view()@ == Set::<int>::empty(),
            r.acked == 0,
            r.wait_count == DEFAULT_ACK_WAIT_COUNT,
            r.max_ack_delay == max_ack_delay,
    {
        AckSender {
            state: AckState::Idle,
            spans: AckSpans::new(),
            acked: 0,
            wait_count: DEFAULT_ACK_WAIT_COUNT,
            max_ack_delay,
        }
    }

    pub fn with_wait_count(self, wait_count: u64) -> (r: Self)
        ensures
            r.wait_count == wait_count,
            r.state == self.state,
            r.spans == self.spans,
            r.acked == self.acked,
            r.max_ack_delay == self.max_ack_delay,
    {
        AckSender { wait_count, ..self }
    }

    /// The ACK frame for everything received so far, with `delay` set.
    fn frame(&self, delay: u64) -> (r: AckFrame)
        requires
            self.wf(),
        ensures
            r.largest_ack == encoded_largest(self.spans.set_view().spans()),
            r.first_ack_range == encoded_first(self.spans.set_view().spans()),
            r.ack_ranges@ == encoded_ranges(
                self.spans.set_view().spans(),
                self.spans.limit_view() as int,
            ),
            r.delay == delay,
    {
        let mut frame = self.spans.to_frame();
        frame.set_delay(delay);
        frame
    }

    /// What `on_recv` leaves behind, from `self` to `next`.
    pub open spec fn recv_post(self, pn: u64, is_ack_eliciting: bool, instant: u64, now: u64, r: AckAction, next: Self) -> bool {
        &&& next.spans.set_view()@ == self.spans.set_view()@.insert(pn as int)
        &&& next.spans.limit_view() == self.spans.limit_view()
        &&& next.wait_count == self.wait_count
        &&& next.max_ack_delay == self.max_ack_delay
        &&& ({
                let (st, acked, step) = recv_step(
                    self.state,
                    self.acked,
                    self.wait_count,
                    pn,
                    is_ack_eliciting,
                );
                &&& next.state == st
                &&& next.acked == acked
                &&& step == AckStep::Nothing ==> r is Nothing
                &&& step == AckStep::Arm ==> r is ArmTimer
                &&& step == AckStep::Send ==> (r matches AckAction::Send { cancel_timer, .. } && !cancel_timer)
                &&& step == AckStep::CancelAndSend ==> (r matches AckAction::Send { cancel_timer, .. } && cancel_timer)
            })
        &&& (r matches AckAction::Send { frame, .. } ==> {
                &&& frame.largest_ack == encoded_largest(next.spans.set_view().spans())
                &&& frame.first_ack_range == encoded_first(next.spans.set_view().spans())
                &&& frame.ack_ranges@ == encoded_ranges(
                    next.spans.set_view().spans(),
                    next.spans.limit_view() as int,
                )
                &&& frame.delay == delay_ms(instant, now)
            })
    }

    /// Packet `pn` arrived at `instant`; `now` is the current time. Both are
    /// microseconds on one clock.
    pub fn on_recv(&mut self, pn: u64, is_ack_eliciting: bool, instant: u64, now: u64) -> (r: AckAction)
        requires
            old(self).wf(),
            pn < u64::MAX,
        ensures
            final(self).wf(),
            old(self).recv_post(pn, is_ack_eliciting, instant, now, r, *final(self)),
    {
        self.spans.insert(pn);
        let delay = if now >= instant {
            (now - instant) / 1000
        } else {
            0
        };
        if !is_ack_eliciting {
            if pn > self.acked {
                self.acked = pn;
            }
            self.state = AckState::Idle;
            return AckAction::Nothing;
        }
        match self.state {
            AckState::Idle => {
                if self.acked < u64::MAX && pn == self.acked + 1 {
                    self.state = AckState::Waiting(1);
                    AckAction::ArmTimer
                } else {
                    if self.acked < u64::MAX - 1 && pn >= self.acked + 2 {
                        self.acked = pn;
                    }
                    AckAction::Send { frame: self.frame(delay), cancel_timer: false }
                }
            },
            AckState::Waiting(count) => {
                let now_count = count + 1;
                if pn == self.acked + now_count && now_count < self.wait_count {
                    self.state = AckState::Waiting(now_count);
                    AckAction::Nothing
                } else {
                    let batch_end = self.acked + count;
                    self.acked = if pn > batch_end {
                        pn
                    } else {
                        batch_end
                    };
                    self.state = AckState::Idle;
                    AckAction::Send { frame: self.frame(delay), cancel_timer: true }
                }
            },
        }
    }

    /// What `on_timeout` leaves behind, from `self` to `next`.
    pub open spec fn timeout_post(self, r: Option<AckFrame>, next: Self) -> bool {
        &&& next.state == AckState::Idle
        &&& next.spans == self.spans
        &&& next.wait_count == self.wait_count
        &&& next.max_ack_delay == self.max_ack_delay
        &&& (self.state == AckState::Idle ==> r is None && next.acked == self.acked)
        &&& (self.state matches AckState::Waiting(c) ==> {
                &&& next.acked == self.acked + c
                &&& (r matches Some(frame) && frame.delay == self.max_ack_delay
                    && frame.largest_ack == encoded_largest(self.spans.set_view().spans())
                    && frame.first_ack_range == encoded_first(self.spans.set_view().spans())
                    && frame.ack_ranges@ == encoded_ranges(
                    self.spans.set_view().spans(),
                    self.spans.limit_view() as int,
                ))
            })
    }

    /// The max-ack-delay timer fired: a waiting batch is acknowledged with
    /// the full delay.
    pub fn on_timeout(&mut self) -> (r: Option<AckFrame>)
        requires
            old(self).wf(),
        ensures
            final(self).wf(),
            old(self).timeout_post(r, *final(self)),
    {
        match self.state {
            AckState::Waiting(count) => {
                let frame = self.frame(self.max_ack_delay);
                self.acked = self.acked + count;
                self.state = AckState::Idle;
                Some(frame)
            },
            AckState::Idle => None,
        }
    }
}

} // verus!
