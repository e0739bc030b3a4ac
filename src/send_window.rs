use crate::range_set::{span, RangeSet};
use crate::window_buf::{Chunk, WindowBuf};
use core::ops::Range;
use vstd::prelude::*;

verus! {

/// Size of a stream's flow-control window, in bytes.
pub const MAX_WINDOW_SIZE: u64 = 1048576;

/// The sending half of a stream: bytes written by the application, up to
/// the acknowledged ones, with what has been sent, acknowledged and lost.
#[derive(Debug)]
pub struct SendWindow {
    /// Unacknowledged bytes; `buf.start` is the acknowledged prefix's end.
    pub buf: WindowBuf,
    /// The peer's flow-control limit: offsets below it may be sent.
    pub max_data: u64,
    /// Bytes below this offset have been sent once.
    pub sent_offset: u64,
    /// Bytes below this offset have been written.
    pub wrote_offset: u64,
    /// Acknowledged offsets above `buf.start`.
    pub acks: RangeSet,
    /// Sent offsets that were lost and wait to be sent again.
    pub retransmits: RangeSet,
    /// The application wrote its last byte.
    pub wrote: bool,
}

impl SendWindow {
    pub open spec fn acked_spec(&self) -> u64 {
        self.buf.start
    }

    pub open spec fn wf(&self) -> bool {
        &&& self.buf.wf()
        &&& self.buf.start <= self.sent_offset <= self.wrote_offset
        &&& self.buf.start + self.buf.buf@.len() == self.wrote_offset
        &&& self.sent_offset <= self.max_data
        &&& self.acks.wf()
        &&& self.retransmits.wf()
        &&& forall|x: int| #[trigger]
            self.acks@.contains(x) ==> self.buf.start <= x < self.sent_offset
        &&& forall|x: int| #[trigger]
            self.retransmits@.contains(x) ==> self.buf.start <= x < self.sent_offset
    }

    /// The bytes that may be sent now: up to the written end and the peer's limit.
    pub open spec fn available_spec(&self) -> int {
        (if self.max_data < self.wrote_offset {
            self.max_data
        } else {
            self.wrote_offset
        }) - self.sent_offset
    }

    /// Whether a chunk ending at `end` carries the stream's last byte.
    pub open spec fn fin_spec(&self, end: int) -> bool {
        self.wrote && end == self.wrote_offset
    }

    pub fn new() -> (r: Self)
        ensures
            r.wf(),
            r.max_data == MAX_WINDOW_SIZE,
            r.sent_offset == 0,
            r.wrote_offset == 0,
            r.acked_spec() == 0,
            r.acks@ == Set::<int>::empty(),
            r.retransmits@ == Set::<int>::empty(),
            !r.wrote,
    {
        Self::with_max_data(MAX_WINDOW_SIZE)
    }

    /// A window whose peer allows `max_data` bytes to start with.
    pub fn with_max_data(max_data: u64) -> (r: Self)
        ensures
            r.wf(),
            r.max_data == max_data,
            r.sent_offset == 0,
            r.wrote_offset == 0,
            r.acked_spec() == 0,
            r.acks@ == Set::<int>::empty(),
            r.retransmits@ == Set::<int>::empty(),
            !r.wrote,
    {
        SendWindow {
            buf: WindowBuf::with_capacity(MAX_WINDOW_SIZE as usize),
            max_data,
            sent_offset: 0,
            wrote_offset: 0,
            acks: RangeSet::new(),
            retransmits: RangeSet::new(),
            wrote: false,
        }
    }

    fn fin(&self, end: u64) -> (r: bool)
        ensures
            r == self.fin_spec(end as int),
    {
        self.wrote && end == self.wrote_offset
    }

    /// What `write` leaves behind, from `self` to `next`.
    pub open spec fn write_post(self, data: Seq<u8>, r: usize, next: Self) -> bool {
        &&& (self.wrote ==> r == 0 && next == self)
        &&& (!self.wrote ==> {
                &&& r == data.len()
                &&& next.wrote_offset == self.wrote_offset + data.len()
                &&& next.buf.buf@ == self.buf.buf@ + data
                &&& next.buf.start == self.buf.start
                &&& next.sent_offset == self.sent_offset
                &&& next.max_data == self.max_data
                &&& next.acks == self.acks
                &&& next.retransmits == self.retransmits
                &&& !next.wrote
            })
    }

    /// Appends `data`; nothing once the last byte has been declared.
    pub fn write(&mut self, data: &[u8]) -> (r: usize)
        requires
            old(self).wf(),
            old(self).wrote_offset + data@.len() <= u64::MAX,
        ensures
            final(self).wf(),
            old(self).write_post(data@, r, *final(self)),
    {
        if self.wrote {
            return 0;
        }
        self.buf.extend_from_slice(data);
        self.wrote_offset = self.wrote_offset + data.len() as u64;
        data.len()
    }

    /// What `read_retransmit` leaves behind, from `self` to `next`.
    pub open spec fn read_retransmit_post(self, len: usize, r: Option<(Chunk, bool)>, next: Self) -> bool {
        &&& next.buf == self.buf
        &&& next.sent_offset == self.sent_offset
        &&& next.wrote_offset == self.wrote_offset
        &&& next.max_data == self.max_data
        &&& next.acks == self.acks
        &&& next.wrote == self.wrote
        &&& (r is None <==> self.retransmits@ == Set::<int>::empty())
        &&& (r is None ==> next.retransmits == self.retransmits)
        &&& (r matches Some((Chunk(data, offset), fin)) ==> self.buf.start <= offset && offset
                + data@.len() <= self.sent_offset && data@.len() <= len && data@ == self.buf.buf@.subrange(
                offset - self.buf.start,
                offset - self.buf.start + data@.len(),
            ))
        &&& (r matches Some((Chunk(data, offset), fin)) ==> {
                let g = self.retransmits.spans()[0];
                let n = if len < g.1 - g.0 {
                    len as int
                } else {
                    g.1 - g.0
                };
                &&& offset == g.0
                &&& data@ == self.buf.buf@.subrange(
                    offset - self.buf.start,
                    offset - self.buf.start + n,
                )
                &&& next.retransmits@ == self.retransmits@.difference(
                    span(offset as int, offset + n),
                )
                &&& fin == self.fin_spec(offset + n)
            })
    }

    /// Takes up to `len` bytes of the lowest range waiting to be sent again.
    pub fn read_retransmit(&mut self, len: usize) -> (r: Option<(Chunk, bool)>)
        requires
            old(self).wf(),
        ensures
            final(self).wf(),
            old(self).read_retransmit_post(len, r, *final(self)),
    {
        let empty = self.retransmits.is_empty();
        if empty {
            return None;
        }
        let ghost g = self.retransmits.spans()[0];
        let ghost before = self.retransmits@;
        let range = self.retransmits.pop_front().unwrap();
        proof {
            assert(before.contains(g.0 as int));
        }
        let glen = range.end - range.start;
        let n: u64 = if (len as u64) < glen {
            len as u64
        } else {
            glen
        };
        if n < glen {
            self.retransmits.insert(range.start + n..range.end);
        }
        proof {
            assert(self.retransmits@ =~= before.difference(span(range.start as int, range.start + n)));
            assert forall|x: int| #[trigger] self.retransmits@.contains(x) implies self.buf.start <= x
                < self.sent_offset by {
                assert(before.contains(x));
            }
            assert(before.contains(range.end - 1));
        }
        let chunk = self.buf.read(range.start, range.start + n);
        let fin = self.fin(range.start + n);
        Some((chunk, fin))
    }

    /// What `read` leaves behind, from `self` to `next`.
    pub open spec fn read_post(self, len: usize, r: Option<(Chunk, bool)>, next: Self) -> bool {
        &&& next.buf == self.buf
        &&& next.wrote_offset == self.wrote_offset
        &&& next.max_data == self.max_data
        &&& next.acks == self.acks
        &&& next.wrote == self.wrote
        &&& (r matches Some((Chunk(data, offset), fin)) ==> self.buf.start <= offset && offset
                + data@.len() <= self.wrote_offset && data@.len() <= len && data@ == self.buf.buf@.subrange(
                offset - self.buf.start,
                offset - self.buf.start + data@.len(),
            ))
        &&& (self.retransmits@ != Set::<int>::empty() ==> {
                let g = self.retransmits.spans()[0];
                let n = if len < g.1 - g.0 {
                    len as int
                } else {
                    g.1 - g.0
                };
                &&& next.sent_offset == self.sent_offset
                &&& r matches Some((Chunk(data, offset), fin)) && offset == g.0 && data@ == self.buf.buf@.subrange(offset - self.buf.start, offset - self.buf.start + n)
                    && next.retransmits@ == self.retransmits@.difference(
                    span(offset as int, offset + n),
                ) && fin == self.fin_spec(offset + n)
            })
        &&& (self.retransmits@ == Set::<int>::empty() ==> {
                let n = if len < self.available_spec() {
                    len as int
                } else {
                    self.available_spec()
                };
                &&& next.retransmits == self.retransmits
                &&& self.available_spec() == 0 ==> r is None && next.sent_offset
                    == self.sent_offset
                &&& self.available_spec() > 0 ==> next.sent_offset == self.sent_offset + n && (r matches Some((Chunk(data, offset), fin)) && offset == self.sent_offset && data@ == self.buf.buf@.subrange(
                    offset - self.buf.start,
                    offset - self.buf.start + n,
                ) && fin == self.fin_spec(offset + n))
            })
    }

    /// Takes up to `len` bytes to send: a lost range first, else new bytes
    /// that the peer's limit allows.
    pub fn read(&mut self, len: usize) -> (r: Option<(Chunk, bool)>)
        requires
            old(self).wf(),
        ensures
            final(self).wf(),
            old(self).read_post(len, r, *final(self)),
    {
        let again = self.read_retransmit(len);
        if again.is_some() {
            return again;
        }
        let available = self.available();
        if available == 0 {
            return None;
        }
        let n: u64 = if len < available {
            len as u64
        } else {
            available as u64
        };
        let lo = self.sent_offset;
        let chunk = self.buf.read(lo, lo + n);
        self.sent_offset = lo + n;
        let fin = self.fin(lo + n);
        Some((chunk, fin))
    }

    /// What `set_max_data` leaves behind, from `self` to `next`.
    pub open spec fn set_max_data_post(self, max_data: u64, next: Self) -> bool {
        &&& next.max_data == if max_data > self.max_data {
                max_data
            } else {
                self.max_data
            }
        &&& next.buf == self.buf
        &&& next.sent_offset == self.sent_offset
        &&& next.wrote_offset == self.wrote_offset
        &&& next.acks == self.acks
        &&& next.retransmits == self.retransmits
        &&& next.wrote == self.wrote
    }

    /// The peer raised its limit; it never goes down.
    pub fn set_max_data(&mut self, max_data: u64)
        requires
            old(self).wf(),
        ensures
            final(self).wf(),
            old(self).set_max_data_post(max_data, *final(self)),
    {
        if max_data <= self.max_data {
            return;
        }
        self.max_data = max_data;
    }

    /// What `ack` leaves behind, from `self` to `next`.
    pub open spec fn ack_post(self, range: Range<u64>, next: Self) -> bool {
        &&& next.sent_offset == self.sent_offset
        &&& next.wrote_offset == self.wrote_offset
        &&& next.max_data == self.max_data
        &&& next.wrote == self.wrote
        &&& next.acked_spec() >= self.acked_spec()
        &&& next.buf.buf@ == self.buf.buf@.subrange(
                next.acked_spec() - self.acked_spec(),
                self.buf.buf@.len() as int,
            )
        &&& ({
                let hi = if range.end < self.sent_offset {
                    range.end
                } else {
                    self.sent_offset
                };
                let ignored = range.start >= range.end || range.start < self.acked_spec()
                    || span(range.start as int, range.end as int).subset_of(
                    self.retransmits@,
                ) || range.start >= hi;
                let all = self.acks@.union(span(range.start as int, hi as int));
                &&& ignored ==> next == self
                &&& !ignored && !all.contains(self.acked_spec() as int) ==> next.acks@
                    == all && next.acked_spec() == self.acked_spec()
                    && next.retransmits == self.retransmits
                &&& !ignored && all.contains(self.acked_spec() as int) ==> {
                    &&& next.acked_spec() > self.acked_spec()
                    &&& span(self.acked_spec() as int, next.acked_spec() as int).subset_of(all)
                    &&& !all.contains(next.acked_spec() as int)
                    &&& next.acks@ == all.difference(
                        span(self.acked_spec() as int, next.acked_spec() as int),
                    )
                    &&& next.retransmits@ == self.retransmits@.difference(
                        span(0, next.acked_spec() as int),
                    )
                }
            })
    }

    /// The peer acknowledged the bytes at `range`. Ranges below the
    /// acknowledged prefix, empty ones and ones wholly waiting to be sent
    /// again are ignored; the part beyond what was sent is too. A run of
    /// acknowledged bytes at the front of the buffer is dropped from it.
    pub fn ack(&mut self, range: Range<u64>)
        requires
            old(self).wf(),
        ensures
            final(self).wf(),
            old(self).ack_post(range, *final(self)),
    {
        assert(self.buf.buf@.subrange(0, self.buf.buf@.len() as int) =~= self.buf.buf@);
        if range.start >= range.end || range.start < self.buf.start {
            return;
        }
        if self.retransmits.contains_range(&range) {
            return;
        }
        let hi = if range.end < self.sent_offset {
            range.end
        } else {
            self.sent_offset
        };
        if range.start >= hi {
            return;
        }
        let ghost a0 = self.acks@;
        self.acks.insert(range.start..hi);
        let ghost all = self.acks@;
        proof {
            assert forall|x: int| #[trigger] all.contains(x) implies self.buf.start <= x
                < self.sent_offset by {
                if a0.contains(x) {
                }
            }
        }
        let min_ack = self.acks.min();
        match min_ack {
            Some(m) => {
                if m == self.buf.start {
                    let ghost rs = self.acks.spans();
                    let front = self.acks.pop_front().unwrap();
                    proof {
                        assert(rs[0].0 <= m < rs[0].1);
                        assert(front.end <= self.sent_offset) by {
                            assert(all.contains(front.end - 1));
                        }
                        if all.contains(front.end as int) {
                            let k = choose|k: int|
                                #![trigger rs[k]]
                                0 <= k < rs.len() && rs[k].0 <= front.end && front.end < rs[k].1;
                            if k > 0 {
                                assert(rs[0].1 < rs[k].0);
                            }
                        }
                        assert forall|y: int| span(m as int, front.end as int).contains(y) implies #[trigger] all.contains(y) by {
                            assert(rs[0].0 <= y < rs[0].1);
                        }
                    }
                    let _ = self.buf.split_to(front.end);
                    let ghost t0 = self.retransmits@;
                    self.retransmits.remove(0..front.end);
                    proof {
                        assert forall|x: int| #[trigger] self.acks@.contains(x) implies self.buf.start <= x
                            < self.sent_offset by {
                            assert(all.contains(x));
                        }
                        assert forall|x: int| #[trigger] self.retransmits@.contains(x) implies self.buf.start <= x
                            < self.sent_offset by {
                            assert(t0.contains(x));
                        }
                    }
                } else {
                    proof {
                        if all.contains(self.buf.start as int) {
                            assert(m <= self.buf.start);
                            assert(all.contains(m as int));
                        }
                    }
                }
            },
            None => {},
        }
        proof {
            assert(self.buf.buf@ =~= old(self).buf.buf@.subrange(
                self.buf.start - old(self).buf.start,
                old(self).buf.buf@.len() as int,
            ));
        }
    }

    /// What `retransmit` leaves behind, from `self` to `next`.
    pub open spec fn retransmit_post(self, range: Range<u64>, next: Self) -> bool {
        &&& next.buf == self.buf
        &&& next.sent_offset == self.sent_offset
        &&& next.wrote_offset == self.wrote_offset
        &&& next.max_data == self.max_data
        &&& next.acks == self.acks
        &&& next.wrote == self.wrote
        &&& ({
                let hi = if range.end < self.sent_offset {
                    range.end
                } else {
                    self.sent_offset
                };
                &&& range.start >= hi || range.start < self.acked_spec() ==> next.retransmits
                    == self.retransmits
                &&& !(range.start >= hi || range.start < self.acked_spec())
                    ==> next.retransmits@ == self.retransmits@.union(
                    span(range.start as int, hi as int),
                )
            })
    }

    /// The bytes at `range` were lost and wait to be sent again. Ranges
    /// below the acknowledged prefix and empty ones are ignored, and so is
    /// the part beyond what was sent.
    pub fn retransmit(&mut self, range: Range<u64>)
        requires
            old(self).wf(),
        ensures
            final(self).wf(),
            old(self).retransmit_post(range, *final(self)),
    {
        let hi = if range.end < self.sent_offset {
            range.end
        } else {
            self.sent_offset
        };
        if range.start >= hi || range.start < self.buf.start {
            return;
        }
        let ghost t0 = self.retransmits@;
        self.retransmits.insert(range.start..hi);
        proof {
            assert forall|x: int| #[trigger] self.retransmits@.contains(x) implies self.buf.start <= x
                < self.sent_offset by {
                if t0.contains(x) {
                }
            }
        }
    }

    /// The bytes that may be sent now.
    pub fn available(&self) -> (r: usize)
        requires
            self.wf(),
        ensures
            r == self.available_spec(),
    {
        let upper = if self.max_data < self.wrote_offset {
            self.max_data
        } else {
            self.wrote_offset
        };
        let blen = self.buf.buf.len();
        assert(upper - self.sent_offset <= blen);
        (upper - self.sent_offset) as usize
    }

    /// The end of the acknowledged prefix.
    pub fn acked(&self) -> (r: u64)
        ensures
            r == self.acked_spec(),
    {
        self.buf.start
    }

    /// Every written byte has been acknowledged.
    pub fn done(&self) -> (r: bool)
        ensures
            r == (self.acked_spec() == self.wrote_offset),
    {
        self.buf.start == self.wrote_offset
    }

    /// The application declares that it wrote its last byte.
    pub fn set_wrote(&mut self)
        ensures
            final(self).wrote,
            final(self).buf == old(self).buf,
            final(self).sent_offset == old(self).sent_offset,
            final(self).wrote_offset == old(self).wrote_offset,
            final(self).max_data == old(self).max_data,
            final(self).acks == old(self).acks,
            final(self).retransmits == old(self).retransmits,
    {
        self.wrote = true;
    }
}

} // verus!
