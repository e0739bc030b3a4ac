use vstd::prelude::*;

verus! {

/// The datagram size that the window arithmetic counts in.
pub const BASE_DATAGRAM_SIZE: u64 = 1200;

/// The window that a fresh controller asks for, before clamping.
pub const INITIAL_WINDOW_TARGET: u64 = 14720;

/// Round-trip time assumed before the first sample, in microseconds.
pub const INITIAL_RTT_MICROS: u64 = 333_000;

/// Largest duration, in microseconds, that the estimator takes in.
pub const RTT_LIMIT_MICROS: u64 = 0x100_0000_0000;

/// `a + b`, or `u64::MAX` where that does not fit.
pub open spec fn sat_add(a: int, b: int) -> int {
    if a + b > u64::MAX {
        u64::MAX as int
    } else {
        a + b
    }
}

/// Congestion avoidance: while the acknowledged bytes cover a whole window,
/// they pay for it and the window grows by one datagram.
/// Returns `(bytes_acked, window)`.
pub open spec fn avoidance(acked: int, window: int, mtu: int) -> (int, int)
    decreases acked,
    when window > 0
{
    if acked >= window {
        avoidance(acked - window, sat_add(window, mtu), mtu)
    } else {
        (acked, window)
    }
}

#[derive(Debug, Clone, Copy)]
pub struct NewRenoConfig {
    pub initial_window: u64,
}

impl Default for NewRenoConfig {
    /// `14720` bytes clamped to two to ten datagrams of `BASE_DATAGRAM_SIZE`.
    fn default() -> (r: Self)
        ensures
            r.initial_window == 12000,
    {
        let lo = 2 * BASE_DATAGRAM_SIZE;
        let hi = 10 * BASE_DATAGRAM_SIZE;
        let w = if INITIAL_WINDOW_TARGET < lo {
            lo
        } else if INITIAL_WINDOW_TARGET > hi {
            hi
        } else {
            INITIAL_WINDOW_TARGET
        };
        NewRenoConfig { initial_window: w }
    }
}

/// The NewReno congestion controller. Times are microseconds on one clock.
#[derive(Debug, Clone)]
pub struct NewReno {
    pub config: NewRenoConfig,
    pub current_mtu: u64,
    /// Bytes that may be in flight at once.
    pub window: u64,
    /// Below this window the controller is in slow start.
    pub ssthresh: u64,
    /// When recovery began; acknowledgements and losses of packets sent
    /// before it are ignored.
    pub recovery_start_time: u64,
    /// Bytes acknowledged since slow start ended, towards the next growth step.
    pub bytes_acked: u64,
}

impl NewReno {
    pub open spec fn wf(&self) -> bool {
        &&& self.window > 0
        &&& 0 < self.current_mtu <= u16::MAX
    }

    pub fn new(config: NewRenoConfig, now: u64, current_mtu: u16) -> (r: Self)
        requires
            config.initial_window > 0,
            current_mtu > 0,
        ensures
            r.wf(),
            r.window == config.initial_window,
            r.ssthresh == u64::MAX,
            r.recovery_start_time == now,
            r.current_mtu == current_mtu,
            r.bytes_acked == 0,
    {
        NewReno {
            config,
            current_mtu: current_mtu as u64,
            window: config.initial_window,
            ssthresh: u64::MAX,
            recovery_start_time: now,
            bytes_acked: 0,
        }
    }

    /// The controller with the default window and datagram size, started at `now`.
    pub fn default_at(now: u64) -> (r: Self)
        ensures
            r.wf(),
            r.window == 12000,
            r.ssthresh == u64::MAX,
            r.recovery_start_time == now,
            r.current_mtu == BASE_DATAGRAM_SIZE,
            r.bytes_acked == 0,
    {
        Self::new(NewRenoConfig::default(), now, 1200)
    }

    /// `bytes` of a packet sent at `sent` were acknowledged.
    pub fn on_ack(&mut self, sent: u64, bytes: u64)
        requires
            old(self).wf(),
        ensures
            final(self).wf(),
            final(self).window >= old(self).window,
            final(self).config == old(self).config,
            final(self).current_mtu == old(self).current_mtu,
            final(self).ssthresh == old(self).ssthresh,
            final(self).recovery_start_time == old(self).recovery_start_time,
            sent <= old(self).recovery_start_time ==> *final(self) == *old(self),
            sent > old(self).recovery_start_time && old(self).window < old(self).ssthresh ==> {
                &&& final(self).window == sat_add(old(self).window as int, bytes as int)
                &&& final(self).bytes_acked == if final(self).window >= old(self).ssthresh {
                    final(self).window - old(self).ssthresh
                } else {
                    old(self).bytes_acked as int
                }
            },
            sent > old(self).recovery_start_time && old(self).window >= old(self).ssthresh ==> (
            final(self).bytes_acked as int, final(self).window as int) == avoidance(
                sat_add(old(self).bytes_acked as int, bytes as int),
                old(self).window as int,
                old(self).current_mtu as int,
            ),
    {
        if sent <= self.recovery_start_time {
            return;
        }
        if self.window < self.ssthresh {
            self.window = self.window.saturating_add(bytes);
            if self.window >= self.ssthresh {
                self.bytes_acked = self.window - self.ssthresh;
            }
        } else {
            self.bytes_acked = self.bytes_acked.saturating_add(bytes);
            let ghost w0 = self.window;
            while self.bytes_acked >= self.window
                invariant
                    self.window > 0,
                    self.window >= w0,
                    0 < self.current_mtu <= u16::MAX,
                    avoidance(self.bytes_acked as int, self.window as int, self.current_mtu as int)
                        == avoidance(
                        sat_add(old(self).bytes_acked as int, bytes as int),
                        old(self).window as int,
                        old(self).current_mtu as int,
                    ),
                    self.config == old(self).config,
                    self.current_mtu == old(self).current_mtu,
                    self.ssthresh == old(self).ssthresh,
                    self.recovery_start_time == old(self).recovery_start_time,
                decreases self.bytes_acked,
            {
                self.bytes_acked = self.bytes_acked - self.window;
                self.window = self.window.saturating_add(self.current_mtu);
            }
        }
    }

    /// A packet sent at `sent` was declared lost at `now`.
    pub fn on_loss(&mut self, now: u64, sent: u64, bytes: u64)
        requires
            old(self).wf(),
        ensures
            final(self).wf(),
            sent <= old(self).recovery_start_time ==> *final(self) == *old(self),
            sent > old(self).recovery_start_time ==> {
                &&& final(self).recovery_start_time == now
                &&& final(self).window == if old(self).window / 2 > 2 * old(self).current_mtu {
                    (old(self).window / 2) as int
                } else {
                    2 * old(self).current_mtu
                }
                &&& final(self).window >= 2 * old(self).current_mtu
                &&& final(self).ssthresh == final(self).window
                &&& final(self).bytes_acked == old(self).bytes_acked
                &&& final(self).current_mtu == old(self).current_mtu
                &&& final(self).config == old(self).config
            },
    {
        if sent <= self.recovery_start_time {
            return;
        }
        self.recovery_start_time = now;
        let reduced = self.window / 2;
        let minimum = self.minimum_window();
        self.window = if reduced > minimum {
            reduced
        } else {
            minimum
        };
        self.ssthresh = self.window;
    }

    pub fn window(&self) -> (r: u64)
        ensures
            r == self.window,
    {
        self.window
    }

    pub fn initial_window(&self) -> (r: u64)
        ensures
            r == self.config.initial_window,
    {
        self.config.initial_window
    }

    /// Two datagrams: the window never shrinks below this on a loss.
    pub fn minimum_window(&self) -> (r: u64)
        requires
            self.wf(),
        ensures
            r == 2 * self.current_mtu,
    {
        2 * self.current_mtu
    }
}

/// Round-trip estimation after RFC 6298, as QUIC does it. All durations are
/// microseconds.
#[derive(Debug, Clone, Copy)]
pub struct RttEstimator {
    pub latest: u64,
    pub smoothed: Option<u64>,
    pub var: u64,
    pub min: u64,
    pub max_ack_delay: u64,
}

/// `|a - b|`.
pub open spec fn abs_diff(a: int, b: int) -> int {
    if a > b {
        a - b
    } else {
        b - a
    }
}

impl RttEstimator {
    pub open spec fn wf(&self) -> bool {
        &&& self.latest <= RTT_LIMIT_MICROS
        &&& self.var <= RTT_LIMIT_MICROS
        &&& self.min <= RTT_LIMIT_MICROS
        &&& self.max_ack_delay <= RTT_LIMIT_MICROS
        &&& self.smoothed matches Some(s) ==> s <= RTT_LIMIT_MICROS
    }

    pub fn new(max_ack_delay: u64) -> (r: Self)
        requires
            max_ack_delay <= RTT_LIMIT_MICROS,
        ensures
            r.wf(),
            r.latest == INITIAL_RTT_MICROS,
            r.smoothed is None,
            r.var == INITIAL_RTT_MICROS / 2,
            r.min == INITIAL_RTT_MICROS,
            r.max_ack_delay == max_ack_delay,
    {
        RttEstimator {
            latest: INITIAL_RTT_MICROS,
            smoothed: None,
            var: INITIAL_RTT_MICROS / 2,
            min: INITIAL_RTT_MICROS,
            max_ack_delay,
        }
    }

    /// The smoothed estimate, or the latest sample before there is one.
    pub fn rtt(&self) -> (r: u64)
        ensures
            r == match self.smoothed {
                Some(s) => s,
                None => self.latest,
            },
    {
        match self.smoothed {
            Some(s) => s,
            None => self.latest,
        }
    }

    /// The retransmission timeout: `rtt + 4 * var + max_ack_delay`.
    pub fn rto(&self) -> (r: u64)
        requires
            self.wf(),
        ensures
            r == self.rtt_spec() + 4 * self.var + self.max_ack_delay,
    {
        self.rtt() + 4 * self.var + self.max_ack_delay
    }

    pub open spec fn rtt_spec(&self) -> int {
        match self.smoothed {
            Some(s) => s as int,
            None => self.latest as int,
        }
    }

    /// The estimator after a sample `rtt` whose ACK the peer held back for
    /// `ack_delay`.
    pub open spec fn updated(self, ack_delay: u64, rtt: u64) -> RttEstimator {
        match self.smoothed {
            None => RttEstimator { latest: rtt, smoothed: Some(rtt), var: rtt / 2, min: rtt, ..self },
            Some(s) => {
                let m = if rtt < self.min {
                    rtt
                } else {
                    self.min
                };
                let adjusted = if m + ack_delay <= rtt {
                    rtt - ack_delay
                } else {
                    rtt as int
                };
                RttEstimator {
                    latest: rtt,
                    smoothed: Some(((7 * s + adjusted) / 8) as u64),
                    var: ((3 * self.var + abs_diff(s as int, adjusted)) / 4) as u64,
                    min: m,
                    ..self
                }
            },
        }
    }

    /// Takes a sample `rtt` whose peer held the ACK back for `ack_delay`.
    pub fn update(&mut self, ack_delay: u64, rtt: u64)
        requires
            old(self).wf(),
            ack_delay <= RTT_LIMIT_MICROS,
            rtt <= RTT_LIMIT_MICROS,
        ensures
            final(self).wf(),
            *final(self) == old(self).updated(ack_delay, rtt),
            final(self).latest == rtt,
            final(self).max_ack_delay == old(self).max_ack_delay,
            old(self).smoothed is None ==> {
                &&& final(self).smoothed == Some(rtt)
                &&& final(self).var == rtt / 2
                &&& final(self).min == rtt
            },
            old(self).smoothed matches Some(s) ==> {
                let m = if rtt < old(self).min {
                    rtt
                } else {
                    old(self).min
                };
                let adjusted = if m + ack_delay <= rtt {
                    rtt - ack_delay
                } else {
                    rtt as int
                };
                &&& final(self).min == m
                &&& final(self).var == (3 * old(self).var + abs_diff(s as int, adjusted)) / 4
                &&& final(self).smoothed == Some(((7 * s + adjusted) / 8) as u64)
            },
    {
        self.latest = rtt;
        if rtt < self.min {
            self.min = rtt;
        }
        match self.smoothed {
            Some(smoothed) => {
                let adjusted = if self.min + ack_delay <= self.latest {
                    self.latest - ack_delay
                } else {
                    self.latest
                };
                let var_sample = if smoothed > adjusted {
                    smoothed - adjusted
                } else {
                    adjusted - smoothed
                };
                self.var = (3 * self.var + var_sample) / 4;
                self.smoothed = Some((7 * smoothed + adjusted) / 8);
            },
            None => {
                self.smoothed = Some(self.latest);
                self.var = self.latest / 2;
                self.min = self.latest;
            },
        }
    }
}

} // verus!
