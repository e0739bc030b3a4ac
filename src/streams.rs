use crate::frame::{
    FrameMeta, MaxStreamDataFrame, StreamDataFrame, StreamFrame, STREAM_FRAME_MIN_LEN,
};
use crate::packet::PacketMeta;
use crate::send_window::MAX_WINDOW_SIZE;
use core::ops::Range;
use crate::stream::{ReadOutcome, RecvStreamInner, SendStreamInner, StreamError};
use rand::Rng;
use std::collections::VecDeque;
use vstd::prelude::*;

verus! {

/// Relies on rand's `thread_rng` and `Rng::gen_range`, which on a non-empty
/// half-open range returns a value inside it and panics on an empty one.
#[verifier::external_body]
fn random_index(n: usize) -> (r: usize)
    requires
        n > 0,
    ensures
        r < n,
{
    rand::thread_rng().gen_range(0..n)
}

/// The indices `0..n`, each once, in an order drawn at random: each step
/// draws the next index uniformly from those not yet taken.
pub fn choose_order(n: usize) -> (r: Vec<usize>)
    ensures
        r@.len() == n,
        forall|i: int| 0 <= i < n ==> #[trigger] r@[i] < n,
        forall|i: int, j: int| 0 <= i < j < n ==> #[trigger] r@[i] != #[trigger] r@[j],
        forall|x: usize| x < n ==> #[trigger] r@.contains(x),
{
    let mut pool: Vec<usize> = Vec::new();
    let mut k: usize = 0;
    while k < n
        invariant
            k <= n,
            pool@.len() == k,
            forall|i: int| 0 <= i < k ==> #[trigger] pool@[i] == i,
        decreases n - k,
    {
        pool.push(k);
        k += 1;
    }
    let mut order: Vec<usize> = Vec::new();
    assert forall|x: usize| x < n implies #[trigger] order@.contains(x) || pool@.contains(x) by {
        assert(pool@[x as int] == x);
    }
    while pool.len() > 0
        invariant
            order@.len() + pool@.len() == n,
            forall|i: int| 0 <= i < order@.len() ==> #[trigger] order@[i] < n,
            forall|i: int| 0 <= i < pool@.len() ==> #[trigger] pool@[i] < n,
            forall|i: int, j: int| 0 <= i < j < order@.len() ==> #[trigger] order@[i] != #[trigger] order@[j],
            forall|i: int, j: int| 0 <= i < j < pool@.len() ==> #[trigger] pool@[i] != #[trigger] pool@[j],
            forall|i: int, j: int|
                0 <= i < order@.len() && 0 <= j < pool@.len() ==> #[trigger] order@[i] != #[trigger] pool@[j],
            forall|x: usize| x < n ==> #[trigger] order@.contains(x) || pool@.contains(x),
        decreases pool@.len(),
    {
        let j = random_index(pool.len());
        let ghost before = pool@;
        let ghost ord0 = order@;
        let x = pool.remove(j);
        proof {
            assert forall|a: int| 0 <= a < pool@.len() implies #[trigger] pool@[a] == before[if a < j {
                a
            } else {
                a + 1
            }] by {}
        }
        order.push(x);
        proof {
            assert forall|y: usize| y < n implies #[trigger] order@.contains(y) || pool@.contains(y) by {
                if ord0.contains(y) {
                    let i = choose|i: int| 0 <= i < ord0.len() && ord0[i] == y;
                    assert(order@[i] == y);
                } else {
                    assert(before.contains(y));
                    let a = choose|a: int| 0 <= a < before.len() && before[a] == y;
                    if a < j {
                        assert(pool@[a] == y);
                    } else if a > j {
                        assert(pool@[a - 1] == y);
                    } else {
                        assert(order@[order@.len() - 1] == y);
                    }
                }
            }
        }
    }
    order
}

/// What a stream of the peer's reveals on `accept`.
#[derive(Debug, Clone, Copy, PartialEq, Eq, Structural)]
pub enum AcceptOutcome {
    /// The next stream that the peer opened.
    Stream(u16),
    /// The peer promised more streams; none has arrived yet.
    Wait,
    /// Every stream the peer promised has been accepted.
    Done,
}

/// The bytes to hand out per scheduling tick: a quarter more than
/// `window * 1000 / rtt_micros`, with a round trip of zero taken as one
/// microsecond.
pub open spec fn budget_spec(window: u64, rtt_micros: u64) -> int {
    let rtt = if rtt_micros == 0 {
        1
    } else {
        rtt_micros as int
    };
    let bytes = (window + window / 4) * 1000 / rtt;
    if bytes > usize::MAX {
        usize::MAX as int
    } else {
        bytes
    }
}

pub fn budget(window: u64, rtt_micros: u64) -> (r: usize)
    ensures
        r == budget_spec(window, rtt_micros),
{
    let rtt: u128 = if rtt_micros == 0 {
        1
    } else {
        rtt_micros as u128
    };
    let w: u128 = window as u128 + (window / 4) as u128;
    assert(w * 1000 <= u128::MAX) by (nonlinear_arith)
        requires
            w <= 0x1_4000_0000_0000_0000,
    ;
    let bytes = w * 1000 / rtt;
    if bytes > usize::MAX as u128 {
        usize::MAX
    } else {
        bytes as usize
    }
}

/// The stream ranges that frame records carried, in order.
pub open spec fn meta_ranges(fm: Seq<FrameMeta>) -> Seq<(u16, Range<u64>)>
    decreases fm.len(),
{
    if fm.len() == 0 {
        Seq::empty()
    } else {
        meta_ranges(fm.drop_last()) + match fm.last() {
            FrameMeta::Stream(d) => seq![(d.id, d.range)],
            _ => Seq::empty(),
        }
    }
}

/// The stream ranges that packets carried, packet after packet.
pub open spec fn acked_ranges(metas: Seq<PacketMeta>) -> Seq<(u16, Range<u64>)>
    decreases metas.len(),
{
    if metas.len() == 0 {
        Seq::empty()
    } else {
        acked_ranges(metas.drop_last()) + meta_ranges(metas.last().frame_meta@)
    }
}

/// The index of the stream with id `id`.
pub open spec fn send_index(ss: Seq<SendStreamInner>, id: u16) -> int {
    choose|i: int| 0 <= i < ss.len() && (#[trigger] ss[i]).id == id
}

/// The index of the stream with id `id`.
pub open spec fn recv_index(ss: Seq<RecvStreamInner>, id: u16) -> int {
    choose|i: int| 0 <= i < ss.len() && (#[trigger] ss[i]).id == id
}

/// Every stream of a connection, by id: the ones this side sends on and the
/// ones the peer sends on, with the peer's streams not yet accepted.
pub struct StreamsInner {
    pub send_streams: Vec<SendStreamInner>,
    pub recv_streams: Vec<RecvStreamInner>,
    /// The id of the next stream this side opens.
    pub next_id: u16,
    /// The peer's streams in the order they first showed up, not yet accepted.
    pub accept_queue: VecDeque<u16>,
    /// How many of the peer's streams have been accepted.
    pub recv_count: u16,
    /// How many streams the peer promised to open.
    pub peer_streams: u16,
    /// How many bytes the peer lets a new stream send before it grants more.
    pub send_limit: u64,
}

impl StreamsInner {
    pub open spec fn wf(&self) -> bool {
        &&& forall|i: int| 0 <= i < self.send_streams@.len() ==> (#[trigger] self.send_streams@[i]).wf()
        &&& forall|i: int| 0 <= i < self.recv_streams@.len() ==> (#[trigger] self.recv_streams@[i]).wf()
        &&& forall|i: int, j: int|
            0 <= i < j < self.send_streams@.len() ==> (#[trigger] self.send_streams@[i]).id
                != (#[trigger] self.send_streams@[j]).id
        &&& forall|i: int, j: int|
            0 <= i < j < self.recv_streams@.len() ==> (#[trigger] self.recv_streams@[i]).id
                != (#[trigger] self.recv_streams@[j]).id
        &&& self.recv_count <= self.peer_streams
    }

    /// Stream `id` is among the sending ones.
    pub open spec fn has_send(&self, id: u16) -> bool {
        exists|i: int| 0 <= i < self.send_streams@.len() && (#[trigger] self.send_streams@[i]).id == id
    }

    /// Stream `id` is among the receiving ones.
    pub open spec fn has_recv(&self, id: u16) -> bool {
        exists|i: int| 0 <= i < self.recv_streams@.len() && (#[trigger] self.recv_streams@[i]).id == id
    }

    /// Everything but the sending streams is as in `self`.
    pub open spec fn same_but_send(self, next: Self) -> bool {
        &&& next.recv_streams == self.recv_streams
        &&& next.accept_queue == self.accept_queue
        &&& next.next_id == self.next_id
        &&& next.recv_count == self.recv_count
        &&& next.peer_streams == self.peer_streams
        &&& next.send_limit == self.send_limit
    }

    /// `next` is `self` with sending stream `id`, which was `s0` (a fresh
    /// stream where there was none), now `s1`.
    pub open spec fn send_changed(self, id: u16, s0: SendStreamInner, s1: SendStreamInner, next: Self) -> bool {
        &&& self.same_but_send(next)
        &&& self.has_send(id) ==> s0 == self.send_streams@[send_index(self.send_streams@, id)]
            && next.send_streams@ == self.send_streams@.update(send_index(self.send_streams@, id), s1)
        &&& !self.has_send(id) ==> s0.fresh(id, self.send_limit) && next.send_streams@
            == self.send_streams@.push(s1)
    }

    /// `next` is `self` with receiving stream `id`, which was `s0` (a fresh
    /// stream, queued for accepting, where there was none), now `s1`.
    pub open spec fn recv_changed(self, id: u16, s0: RecvStreamInner, s1: RecvStreamInner, next: Self) -> bool {
        &&& next.send_streams == self.send_streams
        &&& next.next_id == self.next_id
        &&& next.recv_count == self.recv_count
        &&& next.peer_streams == self.peer_streams
        &&& next.send_limit == self.send_limit
        &&& self.has_recv(id) ==> s0 == self.recv_streams@[recv_index(self.recv_streams@, id)]
            && next.recv_streams@ == self.recv_streams@.update(recv_index(self.recv_streams@, id), s1)
            && next.accept_queue == self.accept_queue
        &&& !self.has_recv(id) ==> s0.fresh(id) && next.recv_streams@ == self.recv_streams@.push(s1)
            && next.accept_queue@ == self.accept_queue@.push(id)
    }

    /// What `get_send` leaves behind: stream `id` at index `r`, created if new.
    pub open spec fn get_send_post(self, id: u16, r: usize, next: Self) -> bool {
        &&& r < next.send_streams@.len()
        &&& next.send_streams@[r as int].id == id
        &&& self.same_but_send(next)
        &&& self.has_send(id) ==> next == self
        &&& !self.has_send(id) ==> r == self.send_streams@.len() && next.send_streams@.len() == r + 1
            && next.send_streams@.subrange(0, r as int) == self.send_streams@ && next.send_streams@[r as int].fresh(
            id,
            self.send_limit,
        )
    }

    /// What `get_recv` leaves behind: stream `id` at index `r`, created and
    /// queued for accepting if new.
    pub open spec fn get_recv_post(self, id: u16, r: usize, next: Self) -> bool {
        &&& r < next.recv_streams@.len()
        &&& next.recv_streams@[r as int].id == id
        &&& next.send_streams == self.send_streams
        &&& next.next_id == self.next_id
        &&& next.recv_count == self.recv_count
        &&& next.peer_streams == self.peer_streams
        &&& next.send_limit == self.send_limit
        &&& self.has_recv(id) ==> next == self
        &&& !self.has_recv(id) ==> r == self.recv_streams@.len() && next.recv_streams@.len() == r + 1
            && next.recv_streams@.subrange(0, r as int) == self.recv_streams@ && next.recv_streams@[r as int].fresh(
            id,
        ) && next.accept_queue@ == self.accept_queue@.push(id)
    }

    pub fn new(peer_streams: u16, send_limit: u64) -> (r: Self)
        ensures
            r.wf(),
            r.send_streams@.len() == 0,
            r.recv_streams@.len() == 0,
            r.next_id == 0,
            r.accept_queue@.len() == 0,
            r.recv_count == 0,
            r.peer_streams == peer_streams,
            r.send_limit == send_limit,
    {
        StreamsInner {
            send_streams: Vec::new(),
            recv_streams: Vec::new(),
            next_id: 0,
            accept_queue: VecDeque::new(),
            recv_count: 0,
            peer_streams,
            send_limit,
        }
    }

    /// The index of sending stream `id`, created if new.
    pub fn get_send(&mut self, id: u16) -> (r: usize)
        requires
            old(self).wf(),
        ensures
            final(self).wf(),
            old(self).get_send_post(id, r, *final(self)),
    {
        let mut i: usize = 0;
        while i < self.send_streams.len()
            invariant
                *self == *old(self),
                self.wf(),
                i <= self.send_streams@.len(),
                forall|k: int| 0 <= k < i ==> (#[trigger] self.send_streams@[k]).id != id,
            decreases self.send_streams@.len() - i,
        {
            if self.send_streams[i].id == id {
                return i;
            }
            i += 1;
        }
        let limit = self.send_limit;
        self.send_streams.push(SendStreamInner::new(id, limit));
        proof {
            assert(self.send_streams@.subrange(0, old(self).send_streams@.len() as int) =~= old(self).send_streams@);
            assert forall|a: int, b: int|
                0 <= a < b < self.send_streams@.len() implies (#[trigger] self.send_streams@[a]).id
                    != (#[trigger] self.send_streams@[b]).id by {
                if b == self.send_streams@.len() - 1 {
                    assert(self.send_streams@[a] == old(self).send_streams@[a]);
                } else {
                    assert(self.send_streams@[a] == old(self).send_streams@[a]);
                    assert(self.send_streams@[b] == old(self).send_streams@[b]);
                }
            }
            assert forall|a: int| 0 <= a < self.send_streams@.len() implies (#[trigger] self.send_streams@[a]).wf() by {
                if a < old(self).send_streams@.len() {
                    assert(self.send_streams@[a] == old(self).send_streams@[a]);
                }
            }
        }
        self.send_streams.len() - 1
    }

    /// The index of receiving stream `id`; a new one also joins the queue
    /// of streams to accept.
    pub fn get_recv(&mut self, id: u16) -> (r: usize)
        requires
            old(self).wf(),
        ensures
            final(self).wf(),
            old(self).get_recv_post(id, r, *final(self)),
    {
        let mut i: usize = 0;
        while i < self.recv_streams.len()
            invariant
                *self == *old(self),
                self.wf(),
                i <= self.recv_streams@.len(),
                forall|k: int| 0 <= k < i ==> (#[trigger] self.recv_streams@[k]).id != id,
            decreases self.recv_streams@.len() - i,
        {
            if self.recv_streams[i].id == id {
                return i;
            }
            i += 1;
        }
        self.recv_streams.push(RecvStreamInner::new(id));
        self.accept_queue.push_back(id);
        proof {
            assert(self.recv_streams@.subrange(0, old(self).recv_streams@.len() as int) =~= old(self).recv_streams@);
            assert forall|a: int, b: int|
                0 <= a < b < self.recv_streams@.len() implies (#[trigger] self.recv_streams@[a]).id
                    != (#[trigger] self.recv_streams@[b]).id by {
                if b == self.recv_streams@.len() - 1 {
                    assert(self.recv_streams@[a] == old(self).recv_streams@[a]);
                } else {
                    assert(self.recv_streams@[a] == old(self).recv_streams@[a]);
                    assert(self.recv_streams@[b] == old(self).recv_streams@[b]);
                }
            }
            assert forall|a: int| 0 <= a < self.recv_streams@.len() implies (#[trigger] self.recv_streams@[a]).wf() by {
                if a < old(self).recv_streams@.len() {
                    assert(self.recv_streams@[a] == old(self).recv_streams@[a]);
                }
            }
        }
        self.recv_streams.len() - 1
    }

    /// What `open` leaves behind.
    pub open spec fn open_post(self, r: Option<u16>, next: Self) -> bool {
        &&& self.next_id == u16::MAX ==> r is None && next == self
        &&& self.next_id < u16::MAX ==> r == Some(self.next_id) && next.next_id == self.next_id + 1
            && self.get_send_post(self.next_id, send_index(next.send_streams@, self.next_id) as usize, StreamsInner { next_id: self.next_id, ..next })
    }

    /// Opens the next stream of this side; `None` once every id is used.
    pub fn open(&mut self) -> (r: Option<u16>)
        requires
            old(self).wf(),
        ensures
            final(self).wf(),
            old(self).open_post(r, *final(self)),
            r matches Some(id) ==> final(self).has_send(id),
    {
        if self.next_id == u16::MAX {
            return None;
        }
        let id = self.next_id;
        let i = self.get_send(id);
        proof {
            lemma_send_index(self.send_streams@, i as int, id);
        }
        self.next_id = id + 1;
        assert(self.send_streams@[i as int].id == id);
        Some(id)
    }

    /// What `accept` leaves behind.
    pub open spec fn accept_post(self, r: AcceptOutcome, next: Self) -> bool {
        &&& next.send_streams == self.send_streams
        &&& next.recv_streams == self.recv_streams
        &&& next.next_id == self.next_id
        &&& next.peer_streams == self.peer_streams
        &&& next.send_limit == self.send_limit
        &&& self.recv_count == self.peer_streams ==> r == AcceptOutcome::Done && next.recv_count
            == self.recv_count && next.accept_queue@ == self.accept_queue@
        &&& self.recv_count < self.peer_streams && self.accept_queue@.len() == 0 ==> r
            == AcceptOutcome::Wait && next.recv_count == self.recv_count && next.accept_queue@
            == self.accept_queue@
        &&& self.recv_count < self.peer_streams && self.accept_queue@.len() > 0 ==> r
            == AcceptOutcome::Stream(self.accept_queue@[0]) && next.recv_count == self.recv_count + 1
            && next.accept_queue@ == self.accept_queue@.subrange(1, self.accept_queue@.len() as int)
    }

    /// The next stream that the peer opened.
    pub fn accept(&mut self) -> (r: AcceptOutcome)
        requires
            old(self).wf(),
        ensures
            final(self).wf(),
            old(self).accept_post(r, *final(self)),
    {
        if self.recv_count == self.peer_streams {
            return AcceptOutcome::Done;
        }
        match self.accept_queue.pop_front() {
            Some(id) => {
                self.recv_count = self.recv_count + 1;
                AcceptOutcome::Stream(id)
            },
            None => AcceptOutcome::Wait,
        }
    }

    /// What `dispatch` leaves behind: data reaches receiving stream `f.id`,
    /// a limit reaches sending stream `f.id`.
    pub open spec fn dispatch_post(self, frame: StreamFrame, r: Result<usize, StreamError>, next: Self) -> bool {
        match frame {
            StreamFrame::Data(f) => exists|s0: RecvStreamInner, s1: RecvStreamInner|
                #[trigger] self.recv_changed(f.id, s0, s1, next) && s0.write_post(f.data, f.offset, f.fin, r, s1),
            StreamFrame::MaxData(f) => r == Ok::<usize, StreamError>(0) && exists|s0: SendStreamInner, s1: SendStreamInner|
                #[trigger] self.send_changed(f.id, s0, s1, next) && s0.set_max_data_post(f.max_data, s1),
        }
    }

    /// Routes a frame to its stream: data to the receiving stream, a limit
    /// to the sending one. Returns how many bytes a data frame gave its
    /// stream, or why the stream refused them.
    pub fn dispatch(&mut self, frame: StreamFrame) -> (r: Result<usize, StreamError>)
        requires
            old(self).wf(),
        ensures
            final(self).wf(),
            old(self).dispatch_post(frame, r, *final(self)),
    {
        match frame {
            StreamFrame::Data(f) => {
                let ghost before = *self;
                let i = self.get_recv(f.id);
                let ghost mid = *self;
                let mut s = self.recv_streams.remove(i);
                let ghost s0 = s;
                let r = s.write(f.data, f.offset, f.fin);
                let ghost s1 = s;
                self.recv_streams.insert(i, s);
                proof {
                    lemma_recv_replace(before, mid, i as int, f.id, s0, s1, *self);
                }
                r
            },
            StreamFrame::MaxData(f) => {
                let ghost before = *self;
                let i = self.get_send(f.id);
                let ghost mid = *self;
                let mut s = self.send_streams.remove(i);
                let ghost s0 = s;
                s.set_max_data(f.max_data);
                let ghost s1 = s;
                self.send_streams.insert(i, s);
                proof {
                    lemma_send_replace(before, mid, i as int, f.id, s0, s1, *self);
                }
                Ok(0)
            },
        }
    }

    /// What `write_stream` leaves behind.
    pub open spec fn write_stream_post(self, id: u16, data: Seq<u8>, r: Result<usize, StreamError>, next: Self) -> bool {
        exists|s0: SendStreamInner, s1: SendStreamInner|
            #[trigger] self.send_changed(id, s0, s1, next) && (s0.window.wrote_offset + data.len() <= u64::MAX
                ==> s0.write_post(data, r, s1)) && (s0.window.wrote_offset + data.len() > u64::MAX ==> r
                == Err::<usize, StreamError>(StreamError::Reset) && s1 == s0)
    }

    /// Writes the application's bytes to sending stream `id`.
    pub fn write_stream(&mut self, id: u16, data: &[u8]) -> (r: Result<usize, StreamError>)
        requires
            old(self).wf(),
        ensures
            final(self).wf(),
            old(self).write_stream_post(id, data@, r, *final(self)),
    {
        let ghost before = *self;
        let i = self.get_send(id);
        let ghost mid = *self;
        let mut s = self.send_streams.remove(i);
        let ghost s0 = s;
        let r = if s.window.wrote_offset <= u64::MAX - data.len() as u64 {
            s.write(data)
        } else {
            Err(StreamError::Reset)
        };
        let ghost s1 = s;
        self.send_streams.insert(i, s);
        proof {
            lemma_send_replace(before, mid, i as int, id, s0, s1, *self);
        }
        r
    }

    /// What `set_wrote_stream` leaves behind.
    pub open spec fn set_wrote_stream_post(self, id: u16, next: Self) -> bool {
        exists|s0: SendStreamInner, s1: SendStreamInner|
            #[trigger] self.send_changed(id, s0, s1, next) && s0.set_wrote_post(s1)
    }

    /// The application wrote the last byte of sending stream `id`.
    pub fn set_wrote_stream(&mut self, id: u16)
        requires
            old(self).wf(),
        ensures
            final(self).wf(),
            old(self).set_wrote_stream_post(id, *final(self)),
    {
        let ghost before = *self;
        let i = self.get_send(id);
        let ghost mid = *self;
        let mut s = self.send_streams.remove(i);
        let ghost s0 = s;
        s.set_wrote();
        let ghost s1 = s;
        self.send_streams.insert(i, s);
        proof {
            lemma_send_replace(before, mid, i as int, id, s0, s1, *self);
        }
    }

    /// What `read_stream` leaves behind.
    pub open spec fn read_stream_post(self, id: u16, len: usize, r: ReadOutcome, next: Self) -> bool {
        exists|s0: RecvStreamInner, s1: RecvStreamInner|
            #[trigger] self.recv_changed(id, s0, s1, next) && s0.read_post(len, r, s1)
    }

    /// Reads up to `len` bytes of receiving stream `id`.
    pub fn read_stream(&mut self, id: u16, len: usize) -> (r: ReadOutcome)
        requires
            old(self).wf(),
        ensures
            final(self).wf(),
            old(self).read_stream_post(id, len, r, *final(self)),
    {
        let ghost before = *self;
        let i = self.get_recv(id);
        let ghost mid = *self;
        let mut s = self.recv_streams.remove(i);
        let ghost s0 = s;
        let r = s.read(len);
        let ghost s1 = s;
        self.recv_streams.insert(i, s);
        proof {
            lemma_recv_replace(before, mid, i as int, id, s0, s1, *self);
        }
        r
    }

    /// What `ack_range` leaves behind.
    pub open spec fn ack_range_post(self, id: u16, range: Range<u64>, r: bool, next: Self) -> bool {
        exists|s0: SendStreamInner, s1: SendStreamInner|
            #[trigger] self.send_changed(id, s0, s1, next) && s0.ack_post(range, r, s1)
    }

    /// The peer acknowledged `range` of sending stream `id`; returns whether
    /// that completed the stream.
    pub fn ack_range(&mut self, id: u16, range: Range<u64>) -> (r: bool)
        requires
            old(self).wf(),
        ensures
            final(self).wf(),
            old(self).ack_range_post(id, range, r, *final(self)),
    {
        let ghost before = *self;
        let i = self.get_send(id);
        let ghost mid = *self;
        let mut s = self.send_streams.remove(i);
        let ghost s0 = s;
        let r = s.ack(range);
        let ghost s1 = s;
        self.send_streams.insert(i, s);
        proof {
            lemma_send_replace(before, mid, i as int, id, s0, s1, *self);
        }
        r
    }

    /// What `retransmit_range` leaves behind.
    pub open spec fn retransmit_range_post(self, id: u16, range: Range<u64>, next: Self) -> bool {
        exists|s0: SendStreamInner, s1: SendStreamInner|
            #[trigger] self.send_changed(id, s0, s1, next) && s0.retransmit_post(range, s1)
    }

    /// `range` of sending stream `id` was lost.
    pub fn retransmit_range(&mut self, id: u16, range: Range<u64>)
        requires
            old(self).wf(),
        ensures
            final(self).wf(),
            old(self).retransmit_range_post(id, range, *final(self)),
    {
        let ghost before = *self;
        let i = self.get_send(id);
        let ghost mid = *self;
        let mut s = self.send_streams.remove(i);
        let ghost s0 = s;
        s.retransmit(range);
        let ghost s1 = s;
        self.send_streams.insert(i, s);
        proof {
            lemma_send_replace(before, mid, i as int, id, s0, s1, *self);
        }
    }

    /// What `grant` leaves behind.
    pub open spec fn grant_post(self, id: u16, r: Option<MaxStreamDataFrame>, next: Self) -> bool {
        exists|s0: RecvStreamInner, s1: RecvStreamInner|
            #[trigger] self.recv_changed(id, s0, s1, next) && (s0.window.consumed_spec() + MAX_WINDOW_SIZE
                <= u64::MAX ==> s0.update_post(r, s1)) && (s0.window.consumed_spec() + MAX_WINDOW_SIZE
                > u64::MAX ==> r is None && s1 == s0)
    }

    /// A grant of receiving stream `id` was lost: moves its window up and
    /// returns the new grant while the stream's end is not known.
    pub fn grant(&mut self, id: u16) -> (r: Option<MaxStreamDataFrame>)
        requires
            old(self).wf(),
        ensures
            final(self).wf(),
            old(self).grant_post(id, r, *final(self)),
    {
        let ghost before = *self;
        let i = self.get_recv(id);
        let ghost mid = *self;
        let mut s = self.recv_streams.remove(i);
        let ghost s0 = s;
        let r = if s.window.consumed() <= u64::MAX - MAX_WINDOW_SIZE {
            s.update()
        } else {
            None
        };
        let ghost s1 = s;
        self.recv_streams.insert(i, s);
        proof {
            lemma_recv_replace(before, mid, i as int, id, s0, s1, *self);
        }
        r
    }

    /// Packets were acknowledged: each stream range they carried is
    /// acknowledged on its stream, in order. Returns the streams that this
    /// completed.
    pub fn on_acked(&mut self, metas: &Vec<PacketMeta>) -> (r: Vec<u16>)
        requires
            old(self).wf(),
        ensures
            final(self).wf(),
            ({
                let rs = acked_ranges(metas@);
                exists|trace: Seq<StreamsInner>, done: Seq<bool>|
                    #![trigger trace.len(), done.len()]
                    trace.len() == rs.len() + 1 && done.len() == rs.len() && trace[0] == *old(self)
                        && trace.last() == *final(self) && forall|k: int|
                        #![trigger rs[k]]
                        0 <= k < rs.len() ==> trace[k].ack_range_post(rs[k].0, rs[k].1, done[k], trace[k + 1])
            }),
    {
        let ranges = collect_ranges(metas);
        let ghost rs = acked_ranges(metas@);
        let ghost trace: Seq<StreamsInner> = seq![*self];
        let ghost done_seq: Seq<bool> = Seq::empty();
        let mut closed: Vec<u16> = Vec::new();
        let mut k: usize = 0;
        while k < ranges.len()
            invariant
                self.wf(),
                ranges@ == rs,
                k <= rs.len(),
                trace.len() == k + 1,
                done_seq.len() == k,
                trace[0] == *old(self),
                trace.last() == *self,
                forall|j: int|
                    #![trigger rs[j]]
                    0 <= j < k ==> trace[j].ack_range_post(rs[j].0, rs[j].1, done_seq[j], trace[j + 1]),
            decreases rs.len() - k,
        {
            let ghost st = *self;
            let id = ranges[k].0;
            let range = ranges[k].1.start..ranges[k].1.end;
            assert(range == rs[k as int].1);
            let done = self.ack_range(id, range);
            if done {
                closed.push(id);
            }
            proof {
                let t2 = trace.push(*self);
                let d2 = done_seq.push(done);
                assert forall|j: int|
                    #![trigger rs[j]]
                    0 <= j < k + 1 implies t2[j].ack_range_post(rs[j].0, rs[j].1, d2[j], t2[j + 1]) by {
                    if j < k {
                        assert(t2[j] == trace[j] && t2[j + 1] == trace[j + 1] && d2[j] == done_seq[j]);
                    }
                }
                trace = t2;
                done_seq = d2;
            }
            k += 1;
        }
        assert(trace.len() == rs.len() + 1 && done_seq.len() == rs.len());
        closed
    }

    /// A packet was lost: its stream ranges wait to be sent again, and each
    /// flow-control grant it carried is renewed; the renewed grants are
    /// returned, in order.
    pub fn on_lost(&mut self, meta: &PacketMeta) -> (r: Vec<MaxStreamDataFrame>)
        requires
            old(self).wf(),
        ensures
            final(self).wf(),
            ({
                let fm = meta.frame_meta@;
                exists|trace: Seq<(StreamsInner, Seq<MaxStreamDataFrame>)>, gs: Seq<Option<MaxStreamDataFrame>>|
                    #![trigger trace.len(), gs.len()]
                    trace.len() == fm.len() + 1 && gs.len() == fm.len() && trace[0] == (
                    *old(self),
                    Seq::<MaxStreamDataFrame>::empty(),
                ) && trace.last() == (*final(self), r@) && forall|k: int|
                        #![trigger fm[k]]
                        0 <= k < fm.len() ==> lost_step(trace[k], fm[k], gs[k], trace[k + 1])
            }),
    {
        let ghost fm = meta.frame_meta@;
        let mut grants: Vec<MaxStreamDataFrame> = Vec::new();
        let ghost trace: Seq<(StreamsInner, Seq<MaxStreamDataFrame>)> = seq![(*self, grants@)];
        let ghost gs: Seq<Option<MaxStreamDataFrame>> = Seq::empty();
        let mut k: usize = 0;
        while k < meta.frame_meta.len()
            invariant
                self.wf(),
                fm == meta.frame_meta@,
                k <= fm.len(),
                trace.len() == k + 1,
                gs.len() == k,
                trace[0] == (*old(self), Seq::<MaxStreamDataFrame>::empty()),
                trace.last() == (*self, grants@),
                forall|j: int| #![trigger fm[j]] 0 <= j < k ==> lost_step(trace[j], fm[j], gs[j], trace[j + 1]),
            decreases fm.len() - k,
        {
            let ghost st = (*self, grants@);
            let ghost g_used: Option<MaxStreamDataFrame> = None;
            match &meta.frame_meta[k] {
                FrameMeta::Stream(d) => {
                    let range = d.range.start..d.range.end;
                    assert(range == d.range);
                    self.retransmit_range(d.id, range);
                },
                FrameMeta::MaxStreamData(d) => {
                    let g = self.grant(d.id);
                    proof {
                        g_used = g;
                    }
                    match g {
                        Some(f) => grants.push(f),
                        None => {},
                    }
                },
            }
            proof {
                let t2 = trace.push((*self, grants@));
                let g2 = gs.push(g_used);
                assert(lost_step(st, fm[k as int], g_used, (*self, grants@)));
                assert forall|j: int| #![trigger fm[j]] 0 <= j < k + 1 implies lost_step(t2[j], fm[j], g2[j], t2[j + 1]) by {
                    if j < k {
                        assert(t2[j] == trace[j] && t2[j + 1] == trace[j + 1] && g2[j] == gs[j]);
                    }
                }
                trace = t2;
                gs = g2;
            }
            k += 1;
        }
        assert(trace.len() == fm.len() + 1 && gs.len() == fm.len());
        grants
    }

    /// Reads frames from the sending streams at the indices of `order`, in
    /// that order, within a budget of `bytes` encoded bytes; stops once the
    /// budget cannot hold a frame with data.
    pub fn read_in_order(&mut self, bytes: usize, order: &Vec<usize>) -> (r: Vec<StreamDataFrame>)
        requires
            old(self).wf(),
        ensures
            final(self).wf(),
            scheduled(*old(self), bytes, order@, r@, *final(self)),
    {
        let mut budget: usize = bytes;
        let mut frames: Vec<StreamDataFrame> = Vec::new();
        let ghost trace: Seq<(StreamsInner, Seq<StreamDataFrame>, int)> = seq![(*self, frames@, bytes as int)];
        let ghost wit: Seq<(SendStreamInner, Option<StreamDataFrame>)> = Seq::empty();
        let mut k: usize = 0;
        while k < order.len() && budget > STREAM_FRAME_MIN_LEN
            invariant
                self.wf(),
                k <= order@.len(),
                trace.len() == k + 1,
                wit.len() == k,
                trace[0] == (*old(self), Seq::<StreamDataFrame>::empty(), bytes as int),
                trace.last() == (*self, frames@, budget as int),
                forall|j: int|
                    #![trigger trace[j]]
                    0 <= j < k ==> trace[j].2 > STREAM_FRAME_MIN_LEN && visit_step(trace[j], order@[j], wit[j].0, wit[j].1, trace[j + 1]),
            decreases order@.len() - k,
        {
            let ghost st = (*self, frames@, budget as int);
            let ghost w: (SendStreamInner, Option<StreamDataFrame>) = arbitrary();
            let idx = order[k];
            if idx < self.send_streams.len() {
                let ghost before = self.send_streams@;
                let mut s = self.send_streams.remove(idx);
                let got = s.read(budget);
                let ghost s1 = s;
                proof {
                    w = (s1, got);
                }
                self.send_streams.insert(idx, s);
                proof {
                    assert(self.send_streams@ =~= before.update(idx as int, s1));
                    assert forall|a: int| 0 <= a < self.send_streams@.len() implies (#[trigger] self.send_streams@[a]).wf() by {
                        if a != idx {
                            assert(self.send_streams@[a] == before[a]);
                        }
                    }
                    assert forall|a: int, b: int|
                        0 <= a < b < self.send_streams@.len() implies (#[trigger] self.send_streams@[a]).id
                            != (#[trigger] self.send_streams@[b]).id by {
                        assert(before[a].id == self.send_streams@[a].id);
                        assert(before[b].id == self.send_streams@[b].id);
                    }
                }
                match got {
                    Some(f) => {
                        let n = f.len();
                        budget = budget - n;
                        let ghost fb = frames@;
                        frames.push(f);
                        proof {
                            assert(frames@ == fb.push(f));
                        }
                    },
                    None => {},
                }
            }
            proof {
                let t2 = trace.push((*self, frames@, budget as int));
                let w2 = wit.push(w);
                assert(t2[k as int] == st);
                assert(st.2 > STREAM_FRAME_MIN_LEN);
                assert(visit_step(st, order@[k as int], w.0, w.1, t2[k + 1]));
                assert forall|j: int|
                    #![trigger t2[j]]
                    0 <= j < k + 1 implies t2[j].2 > STREAM_FRAME_MIN_LEN && visit_step(t2[j], order@[j], w2[j].0, w2[j].1, t2[j + 1]) by {
                    if j < k {
                        assert(t2[j] == trace[j] && t2[j + 1] == trace[j + 1] && w2[j] == wit[j]);
                    }
                }
                trace = t2;
                wit = w2;
            }
            k += 1;
        }
        assert(trace.len() == order@.len() + 1 || trace.last().2 <= STREAM_FRAME_MIN_LEN);
        assert(scheduled_by(*old(self), bytes, order@, frames@, *self, trace, wit));
        frames
    }

    /// One scheduling tick: visits the sending streams in an order drawn at
    /// random, without repeats, within a budget of `bytes`.
    pub fn schedule(&mut self, bytes: usize) -> (r: Vec<StreamDataFrame>)
        requires
            old(self).wf(),
        ensures
            final(self).wf(),
            exists|order: Seq<usize>|
                #[trigger] scheduled(*old(self), bytes, order, r@, *final(self)) && order.len()
                    == old(self).send_streams@.len() && (forall|i: int, j: int|
                    0 <= i < j < order.len() ==> #[trigger] order[i] != #[trigger] order[j]),
            bytes > STREAM_FRAME_MIN_LEN && (exists|x: int|
                0 <= x < old(self).send_streams@.len() && #[trigger] old(self).send_streams@[x].can_send())
                ==> r@.len() > 0,
    {
        let order = choose_order(self.send_streams.len());
        let r = self.read_in_order(bytes, &order);
        assert(scheduled(*old(self), bytes, order@, r@, *self));
        proof {
            if bytes > STREAM_FRAME_MIN_LEN && (exists|x: int|
                0 <= x < old(self).send_streams@.len() && #[trigger] old(self).send_streams@[x].can_send()) {
                let x = choose|x: int| 0 <= x < old(self).send_streams@.len() && #[trigger] old(self).send_streams@[x].can_send();
                let (trace, wit) = choose|trace: Seq<(StreamsInner, Seq<StreamDataFrame>, int)>, wit: Seq<(SendStreamInner, Option<StreamDataFrame>)>|
                    #[trigger] scheduled_by(*old(self), bytes, order@, r@, *self, trace, wit);
                assert(x < order@.len());
                assert(order@.contains(x as usize));
                lemma_schedule_progress(*old(self), bytes, order@, r@, *self, trace, wit, x);
            }
        }
        r
    }

    /// Every stream is finished: all sent bytes acknowledged, all received
    /// bytes read.
    pub fn all_closed(&self) -> (r: bool)
        ensures
            r == ((forall|i: int| 0 <= i < self.send_streams@.len() ==> (#[trigger] self.send_streams@[i]).state
                == crate::stream::SendState::DataRecvd) && (forall|i: int|
                0 <= i < self.recv_streams@.len() ==> (#[trigger] self.recv_streams@[i]).state
                    == crate::stream::RecvState::DataRead)),
    {
        let mut i: usize = 0;
        while i < self.send_streams.len()
            invariant
                i <= self.send_streams@.len(),
                forall|k: int| 0 <= k < i ==> (#[trigger] self.send_streams@[k]).state == crate::stream::SendState::DataRecvd,
            decreases self.send_streams@.len() - i,
        {
            if !self.send_streams[i].is_closed() {
                return false;
            }
            i += 1;
        }
        let mut j: usize = 0;
        while j < self.recv_streams.len()
            invariant
                j <= self.recv_streams@.len(),
                forall|k: int| 0 <= k < self.send_streams@.len() ==> (#[trigger] self.send_streams@[k]).state == crate::stream::SendState::DataRecvd,
                forall|k: int| 0 <= k < j ==> (#[trigger] self.recv_streams@[k]).state == crate::stream::RecvState::DataRead,
            decreases self.recv_streams@.len() - j,
        {
            if !self.recv_streams[j].is_closed() {
                return false;
            }
            j += 1;
        }
        true
    }
}

/// `frames` and `next` come from reading the sending streams of `st` at
/// the indices of `order`, in order, while the budget left exceeds a frame
/// header: `trace` holds the state before each visit, `wit` what each read
/// left and returned.
pub open spec fn scheduled_by(
    st: StreamsInner,
    bytes: usize,
    order: Seq<usize>,
    frames: Seq<StreamDataFrame>,
    next: StreamsInner,
    trace: Seq<(StreamsInner, Seq<StreamDataFrame>, int)>,
    wit: Seq<(SendStreamInner, Option<StreamDataFrame>)>,
) -> bool {
    &&& 1 <= trace.len() <= order.len() + 1
    &&& wit.len() == trace.len() - 1
    &&& trace[0] == (st, Seq::<StreamDataFrame>::empty(), bytes as int)
    &&& trace.last().0 == next
    &&& trace.last().1 == frames
    &&& (trace.len() == order.len() + 1 || trace.last().2 <= STREAM_FRAME_MIN_LEN)
    &&& forall|k: int|
        #![trigger trace[k]]
        0 <= k < trace.len() - 1 ==> trace[k].2 > STREAM_FRAME_MIN_LEN && visit_step(
            trace[k],
            order[k],
            wit[k].0,
            wit[k].1,
            trace[k + 1],
        )
}

/// Some run of visits in `order` leads from `st` to `next`, giving `frames`.
pub open spec fn scheduled(
    st: StreamsInner,
    bytes: usize,
    order: Seq<usize>,
    frames: Seq<StreamDataFrame>,
    next: StreamsInner,
) -> bool {
    exists|trace: Seq<(StreamsInner, Seq<StreamDataFrame>, int)>, wit: Seq<(SendStreamInner, Option<StreamDataFrame>)>|
        #[trigger] scheduled_by(st, bytes, order, frames, next, trace, wit)
}

proof fn lemma_frames_grow(
    st: StreamsInner,
    bytes: usize,
    order: Seq<usize>,
    frames: Seq<StreamDataFrame>,
    next: StreamsInner,
    trace: Seq<(StreamsInner, Seq<StreamDataFrame>, int)>,
    wit: Seq<(SendStreamInner, Option<StreamDataFrame>)>,
    k: int,
)
    requires
        scheduled_by(st, bytes, order, frames, next, trace, wit),
        0 <= k < trace.len(),
    ensures
        trace[k].1.len() <= frames.len(),
    decreases trace.len() - k,
{
    if k < trace.len() - 1 {
        lemma_frames_grow(st, bytes, order, frames, next, trace, wit, k + 1);
        assert(visit_step(trace[k], order[k], wit[k].0, wit[k].1, trace[k + 1]));
    }
}

/// While no frame has come, every visit left the budget alone, and the
/// stream at `x` is as it was until its turn.
proof fn lemma_quiet_walk(
    st: StreamsInner,
    bytes: usize,
    order: Seq<usize>,
    frames: Seq<StreamDataFrame>,
    next: StreamsInner,
    trace: Seq<(StreamsInner, Seq<StreamDataFrame>, int)>,
    wit: Seq<(SendStreamInner, Option<StreamDataFrame>)>,
    x: int,
    p: int,
    k: int,
)
    requires
        scheduled_by(st, bytes, order, frames, next, trace, wit),
        frames.len() == 0,
        0 <= x < st.send_streams@.len(),
        0 <= p < order.len(),
        order[p] as int == x,
        forall|i: int, j: int| 0 <= i < j < order.len() ==> #[trigger] order[i] != #[trigger] order[j],
        0 <= k < trace.len(),
    ensures
        trace[k].2 == bytes,
        trace[k].1.len() == 0,
        trace[k].0.send_streams@.len() == st.send_streams@.len(),
        k <= p ==> trace[k].0.send_streams@[x] == st.send_streams@[x],
    decreases k,
{
    lemma_frames_grow(st, bytes, order, frames, next, trace, wit, k);
    if k > 0 {
        lemma_quiet_walk(st, bytes, order, frames, next, trace, wit, x, p, k - 1);
        let a = trace[k - 1];
        assert(visit_step(a, order[k - 1], wit[k - 1].0, wit[k - 1].1, trace[k]));
        if order[k - 1] < a.0.send_streams@.len() {
            if wit[k - 1].1 is Some {
                assert(trace[k].1.len() == a.1.len() + 1);
            }
            if k <= p {
                assert(order[k - 1] != order[p]);
            }
        }
    }
}

/// With budget for a frame, some stream able to send gets a frame out.
proof fn lemma_schedule_progress(
    st: StreamsInner,
    bytes: usize,
    order: Seq<usize>,
    frames: Seq<StreamDataFrame>,
    next: StreamsInner,
    trace: Seq<(StreamsInner, Seq<StreamDataFrame>, int)>,
    wit: Seq<(SendStreamInner, Option<StreamDataFrame>)>,
    x: int,
)
    requires
        scheduled_by(st, bytes, order, frames, next, trace, wit),
        forall|i: int, j: int| 0 <= i < j < order.len() ==> #[trigger] order[i] != #[trigger] order[j],
        0 <= x < st.send_streams@.len(),
        x <= usize::MAX,
        order.contains(x as usize),
        st.send_streams@[x].can_send(),
        bytes > STREAM_FRAME_MIN_LEN,
    ensures
        frames.len() > 0,
{
    if frames.len() == 0 {
        let p = choose|p: int| 0 <= p < order.len() && order[p] == x as usize;
        let last = trace.len() - 1;
        lemma_quiet_walk(st, bytes, order, frames, next, trace, wit, x, p, last);
        assert(trace.len() == order.len() + 1);
        lemma_quiet_walk(st, bytes, order, frames, next, trace, wit, x, p, p);
        lemma_quiet_walk(st, bytes, order, frames, next, trace, wit, x, p, p + 1);
        assert(visit_step(trace[p], order[p], wit[p].0, wit[p].1, trace[p + 1]));
        assert(trace[p].0.send_streams@[x].read_post(bytes, wit[p].1, wit[p].0));
    }
}

/// One visit of the scheduler: the stream at `idx`, if any, is read with
/// the budget left, its frame (if one comes) is kept and paid for.
pub open spec fn visit_step(
    st: (StreamsInner, Seq<StreamDataFrame>, int),
    idx: usize,
    s1: SendStreamInner,
    got: Option<StreamDataFrame>,
    next: (StreamsInner, Seq<StreamDataFrame>, int),
) -> bool {
    if idx >= st.0.send_streams@.len() {
        next == st
    } else {
        st.0.send_streams@[idx as int].read_post(st.2 as usize, got, s1) && st.0.same_but_send(next.0)
                && next.0.send_streams@ == st.0.send_streams@.update(idx as int, s1) && match got {
                Some(f) => next.1 == st.1.push(f) && next.2 == st.2 - (STREAM_FRAME_MIN_LEN + f.data@.len()),
                None => next.1 == st.1 && next.2 == st.2,
            }
    }
}

/// One record of a lost packet handled: a stream range is marked lost on
/// its stream; a grant is renewed, and kept if its stream still receives.
pub open spec fn lost_step(
    st: (StreamsInner, Seq<MaxStreamDataFrame>),
    m: FrameMeta,
    g: Option<MaxStreamDataFrame>,
    next: (StreamsInner, Seq<MaxStreamDataFrame>),
) -> bool {
    match m {
        FrameMeta::Stream(d) => next.1 == st.1 && st.0.retransmit_range_post(d.id, d.range, next.0),
        FrameMeta::MaxStreamData(d) => st.0.grant_post(d.id, g, next.0) && next.1 == match g {
            Some(f) => st.1.push(f),
            None => st.1,
        },
    }
}

/// With ids unique, the stream found for `id` is the one at `i`.
pub proof fn lemma_send_index(ss: Seq<SendStreamInner>, i: int, id: u16)
    requires
        forall|a: int, b: int| 0 <= a < b < ss.len() ==> (#[trigger] ss[a]).id != (#[trigger] ss[b]).id,
        0 <= i < ss.len(),
        ss[i].id == id,
    ensures
        send_index(ss, id) == i,
{
    let j = send_index(ss, id);
    assert(0 <= j < ss.len() && ss[j].id == id);
    if j < i {
        assert(ss[j].id != ss[i].id);
    } else if j > i {
        assert(ss[i].id != ss[j].id);
    }
}

/// With ids unique, the stream found for `id` is the one at `i`.
proof fn lemma_recv_index(ss: Seq<RecvStreamInner>, i: int, id: u16)
    requires
        forall|a: int, b: int| 0 <= a < b < ss.len() ==> (#[trigger] ss[a]).id != (#[trigger] ss[b]).id,
        0 <= i < ss.len(),
        ss[i].id == id,
    ensures
        recv_index(ss, id) == i,
{
    let j = recv_index(ss, id);
    assert(0 <= j < ss.len() && ss[j].id == id);
    if j < i {
        assert(ss[j].id != ss[i].id);
    } else if j > i {
        assert(ss[i].id != ss[j].id);
    }
}

/// Taking the stream that `get_send` found out of the list, changing it
/// and putting it back changes exactly that stream.
proof fn lemma_send_replace(
    before: StreamsInner,
    mid: StreamsInner,
    i: int,
    id: u16,
    s0: SendStreamInner,
    s1: SendStreamInner,
    after: StreamsInner,
)
    requires
        before.wf(),
        mid.wf(),
        0 <= i <= usize::MAX,
        before.get_send_post(id, i as usize, mid),
        s0 == mid.send_streams@[i],
        s1.wf(),
        s1.id == id,
        after.send_streams@ == mid.send_streams@.remove(i).insert(i, s1),
        mid.same_but_send(after),
    ensures
        after.wf(),
        before.send_changed(id, s0, s1, after),
{
    assert(after.send_streams@ =~= mid.send_streams@.update(i, s1));
    if before.has_send(id) {
        lemma_send_index(before.send_streams@, i, id);
    } else {
        assert(mid.send_streams@ =~= before.send_streams@.push(s0));
        assert(after.send_streams@ =~= before.send_streams@.push(s1));
    }
    assert forall|a: int| 0 <= a < after.send_streams@.len() implies (#[trigger] after.send_streams@[a]).wf() by {
        if a != i {
            assert(after.send_streams@[a] == mid.send_streams@[a]);
        }
    }
    assert forall|a: int, b: int|
        0 <= a < b < after.send_streams@.len() implies (#[trigger] after.send_streams@[a]).id
            != (#[trigger] after.send_streams@[b]).id by {
        assert(after.send_streams@[a].id == mid.send_streams@[a].id);
        assert(after.send_streams@[b].id == mid.send_streams@[b].id);
    }
}

/// Taking the stream that `get_recv` found out of the list, changing it
/// and putting it back changes exactly that stream.
proof fn lemma_recv_replace(
    before: StreamsInner,
    mid: StreamsInner,
    i: int,
    id: u16,
    s0: RecvStreamInner,
    s1: RecvStreamInner,
    after: StreamsInner,
)
    requires
        before.wf(),
        mid.wf(),
        0 <= i <= usize::MAX,
        before.get_recv_post(id, i as usize, mid),
        s0 == mid.recv_streams@[i],
        s1.wf(),
        s1.id == id,
        after.recv_streams@ == mid.recv_streams@.remove(i).insert(i, s1),
        after.send_streams == mid.send_streams,
        after.accept_queue == mid.accept_queue,
        after.next_id == mid.next_id,
        after.recv_count == mid.recv_count,
        after.peer_streams == mid.peer_streams,
        after.send_limit == mid.send_limit,
    ensures
        after.wf(),
        before.recv_changed(id, s0, s1, after),
{
    assert(after.recv_streams@ =~= mid.recv_streams@.update(i, s1));
    if before.has_recv(id) {
        lemma_recv_index(before.recv_streams@, i, id);
    } else {
        assert(mid.recv_streams@ =~= before.recv_streams@.push(s0));
        assert(after.recv_streams@ =~= before.recv_streams@.push(s1));
    }
    assert forall|a: int| 0 <= a < after.recv_streams@.len() implies (#[trigger] after.recv_streams@[a]).wf() by {
        if a != i {
            assert(after.recv_streams@[a] == mid.recv_streams@[a]);
        }
    }
    assert forall|a: int, b: int|
        0 <= a < b < after.recv_streams@.len() implies (#[trigger] after.recv_streams@[a]).id
            != (#[trigger] after.recv_streams@[b]).id by {
        assert(after.recv_streams@[a].id == mid.recv_streams@[a].id);
        assert(after.recv_streams@[b].id == mid.recv_streams@[b].id);
    }
}

/// The stream ranges that `metas` carried, packet after packet.
fn collect_ranges(metas: &Vec<PacketMeta>) -> (r: Vec<(u16, Range<u64>)>)
    ensures
        r@ == acked_ranges(metas@),
{
    let mut out: Vec<(u16, Range<u64>)> = Vec::new();
    let mut p: usize = 0;
    while p < metas.len()
        invariant
            p <= metas@.len(),
            out@ == acked_ranges(metas@.subrange(0, p as int)),
        decreases metas@.len() - p,
    {
        let fm = &metas[p].frame_meta;
        let ghost base = out@;
        let mut k: usize = 0;
        while k < fm.len()
            invariant
                k <= fm@.len(),
                fm@ == metas@[p as int].frame_meta@,
                out@ == base + meta_ranges(fm@.subrange(0, k as int)),
            decreases fm@.len() - k,
        {
            proof {
                assert(fm@.subrange(0, k + 1).drop_last() =~= fm@.subrange(0, k as int));
            }
            match &fm[k] {
                FrameMeta::Stream(d) => {
                    let item = (d.id, d.range.start..d.range.end);
                    assert(item == (d.id, d.range));
                    out.push(item);
                    assert(out@ =~= base + meta_ranges(fm@.subrange(0, k + 1)));
                },
                FrameMeta::MaxStreamData(_) => {
                    assert(out@ =~= base + meta_ranges(fm@.subrange(0, k + 1)));
                },
            }
            k += 1;
        }
        proof {
            assert(fm@.subrange(0, fm@.len() as int) =~= fm@);
            assert(metas@.subrange(0, p + 1).drop_last() =~= metas@.subrange(0, p as int));
        }
        p += 1;
    }
    assert(metas@.subrange(0, metas@.len() as int) =~= metas@);
    out
}

/// The encoded size of stream frames, one after another.
pub open spec fn frames_len(fs: Seq<StreamDataFrame>) -> int
    decreases fs.len(),
{
    if fs.len() == 0 {
        0
    } else {
        frames_len(fs.drop_last()) + STREAM_FRAME_MIN_LEN + fs.last().data@.len()
    }
}

} // verus!
