use crate::frame::{MaxStreamDataFrame, StreamDataFrame, STREAM_FRAME_MIN_LEN};
use crate::range_set::span;
use crate::recv_window::RecvWindow;
use crate::send_window::{SendWindow, MAX_WINDOW_SIZE};
use crate::window_buf::Chunk;
use core::ops::Range;
use vstd::prelude::*;

verus! {

/// Why a stream refused a write.
#[derive(Debug, Clone, Copy, PartialEq, Eq, Structural)]
pub enum StreamError {
    /// The application already declared its last byte.
    Reset,
    /// Every byte of the stream has arrived; nothing more is taken.
    Closed,
}

/// Sending side: `Ready` until the first bytes go out, `Send` while they
/// do, `DataSent` once the last byte went out, `DataRecvd` once all are
/// acknowledged.
#[derive(Debug, Clone, Copy, PartialEq, Eq, Structural)]
pub enum SendState {
    Ready,
    Send,
    DataSent,
    DataRecvd,
}

/// Receiving side: `Recv` until the end is known, `SizeKnown` until every
/// byte arrived, `DataRecvd` until every byte was read, then `DataRead`.
#[derive(Debug, Clone, Copy, PartialEq, Eq, Structural)]
pub enum RecvState {
    Recv,
    SizeKnown,
    DataRecvd,
    DataRead,
}

/// The order of send states.
pub open spec fn send_rank(s: SendState) -> int {
    match s {
        SendState::Ready => 0,
        SendState::Send => 1,
        SendState::DataSent => 2,
        SendState::DataRecvd => 3,
    }
}

/// The order of receive states.
pub open spec fn recv_rank(s: RecvState) -> int {
    match s {
        RecvState::Recv => 0,
        RecvState::SizeKnown => 1,
        RecvState::DataRecvd => 2,
        RecvState::DataRead => 3,
    }
}

/// The sending half of a stream and its state.
pub struct SendStreamInner {
    pub id: u16,
    pub window: SendWindow,
    pub state: SendState,
}

impl SendStreamInner {
    pub open spec fn wf(&self) -> bool {
        self.window.wf()
    }

    /// A read with room for data gives a frame: in `Ready` or `Send` when
    /// lost or new bytes wait, in `DataSent` when lost bytes wait.
    pub open spec fn can_send(&self) -> bool {
        match self.state {
            SendState::Ready | SendState::Send => self.window.retransmits@ != Set::<int>::empty()
                || self.window.available_spec() > 0,
            SendState::DataSent => self.window.retransmits@ != Set::<int>::empty(),
            SendState::DataRecvd => false,
        }
    }

    /// A stream that has sent nothing, whose peer allows `limit` bytes.
    pub open spec fn fresh(self, id: u16, limit: u64) -> bool {
        &&& self.wf()
        &&& self.id == id
        &&& self.state == SendState::Ready
        &&& self.window.max_data == limit
        &&& self.window.sent_offset == 0
        &&& self.window.wrote_offset == 0
        &&& self.window.acked_spec() == 0
        &&& self.window.acks@ == Set::<int>::empty()
        &&& self.window.retransmits@ == Set::<int>::empty()
        &&& !self.window.wrote
    }

    /// A new stream whose peer allows `limit` bytes to start with.
    pub fn new(id: u16, limit: u64) -> (r: Self)
        ensures
            r.fresh(id, limit),
    {
        SendStreamInner { id, window: SendWindow::with_max_data(limit), state: SendState::Ready }
    }

    /// What `write` leaves behind, from `self` to `next`.
    pub open spec fn write_post(self, data: Seq<u8>, r: Result<usize, StreamError>, next: Self) -> bool {
        &&& next.id == self.id
        &&& next.state == self.state
        &&& (self.window.wrote ==> r == Err::<usize, StreamError>(StreamError::Reset)
                && next.window == self.window)
        &&& (!self.window.wrote ==> r == Ok::<usize, StreamError>(data.len() as usize)
                && self.window.write_post(data, data.len() as usize, next.window))
    }

    /// Takes the application's bytes; refused once it declared its last one.
    pub fn write(&mut self, data: &[u8]) -> (r: Result<usize, StreamError>)
        requires
            old(self).wf(),
            old(self).window.wrote_offset + data@.len() <= u64::MAX,
        ensures
            final(self).wf(),
            old(self).write_post(data@, r, *final(self)),
    {
        if self.window.wrote {
            return Err(StreamError::Reset);
        }
        let n = self.window.write(data);
        Ok(n)
    }

    /// What `set_wrote` leaves behind, from `self` to `next`.
    pub open spec fn set_wrote_post(self, next: Self) -> bool {
        &&& next.window.wrote
        &&& next.id == self.id
        &&& next.state == self.state
        &&& next.window.wrote_offset == self.window.wrote_offset
    }

    /// The application wrote its last byte.
    pub fn set_wrote(&mut self)
        requires
            old(self).wf(),
        ensures
            final(self).wf(),
            old(self).set_wrote_post(*final(self)),
    {
        self.window.set_wrote();
    }

    /// What `read` leaves behind, from `self` to `next`.
    pub open spec fn read_post(self, bytes: usize, r: Option<StreamDataFrame>, next: Self) -> bool {
        &&& next.id == self.id
        &&& send_rank(next.state) >= send_rank(self.state)
        &&& (r matches Some(f) ==> f.id == self.id && STREAM_FRAME_MIN_LEN + f.data@.len() <= bytes
                && f.wf() && f.offset + f.data@.len() <= self.window.wrote_offset)
        &&& (bytes <= STREAM_FRAME_MIN_LEN || !self.can_send() ==> r is None && next
                == self)
        &&& (bytes > STREAM_FRAME_MIN_LEN && self.can_send() ==> (r matches Some(f) && ({
                let got = Some((Chunk(f.data, f.offset), f.fin));
                let len = (bytes - STREAM_FRAME_MIN_LEN) as usize;
                &&& (self.state == SendState::Ready || self.state == SendState::Send)
                    ==> self.window.read_post(len, got, next.window) && next.state
                    == if f.fin { SendState::DataSent } else { SendState::Send }
                &&& self.state == SendState::DataSent ==> self.window.read_retransmit_post(
                    len,
                    got,
                    next.window,
                ) && next.state == SendState::DataSent
            })))
    }

    /// A frame of at most `bytes` encoded bytes to send, if there is
    /// anything to send: lost bytes first, then new ones; after the last
    /// byte went out, only lost bytes.
    pub fn read(&mut self, bytes: usize) -> (r: Option<StreamDataFrame>)
        requires
            old(self).wf(),
        ensures
            final(self).wf(),
            old(self).read_post(bytes, r, *final(self)),
    {
        if bytes <= STREAM_FRAME_MIN_LEN {
            return None;
        }
        let data_len = bytes - STREAM_FRAME_MIN_LEN;
        match self.state {
            SendState::Ready | SendState::Send => {
                match self.window.read(data_len) {
                    Some((Chunk(data, offset), fin)) => {
                        self.state = if fin {
                            SendState::DataSent
                        } else {
                            SendState::Send
                        };
                        Some(StreamDataFrame { id: self.id, offset, data, fin })
                    },
                    None => None,
                }
            },
            SendState::DataSent => {
                match self.window.read_retransmit(data_len) {
                    Some((Chunk(data, offset), fin)) => {
                        Some(StreamDataFrame { id: self.id, offset, data, fin })
                    },
                    None => None,
                }
            },
            SendState::DataRecvd => None,
        }
    }

    /// What `ack` leaves behind, from `self` to `next`.
    pub open spec fn ack_post(self, range: Range<u64>, r: bool, next: Self) -> bool {
        &&& next.id == self.id
        &&& r == (self.state == SendState::DataSent && next.window.acked_spec()
                == next.window.wrote_offset)
        &&& (r ==> next.state == SendState::DataRecvd)
        &&& (!r ==> next.state == self.state)
        &&& self.window.ack_post(range, next.window)
    }

    /// The peer acknowledged `range`; returns whether that completed the stream.
    pub fn ack(&mut self, range: Range<u64>) -> (r: bool)
        requires
            old(self).wf(),
        ensures
            final(self).wf(),
            old(self).ack_post(range, r, *final(self)),
    {
        self.window.ack(range);
        if self.state == SendState::DataSent && self.window.done() {
            self.state = SendState::DataRecvd;
            true
        } else {
            false
        }
    }

    /// What `retransmit` leaves behind, from `self` to `next`.
    pub open spec fn retransmit_post(self, range: Range<u64>, next: Self) -> bool {
        &&& self.window.retransmit_post(range, next.window)
        &&& next.id == self.id
        &&& next.state == self.state
    }

    /// The bytes at `range` were lost.
    pub fn retransmit(&mut self, range: Range<u64>)
        requires
            old(self).wf(),
        ensures
            final(self).wf(),
            old(self).retransmit_post(range, *final(self)),
    {
        self.window.retransmit(range);
    }

    /// What `set_max_data` leaves behind, from `self` to `next`.
    pub open spec fn set_max_data_post(self, max_data: u64, next: Self) -> bool {
        &&& next.id == self.id
        &&& next.state == self.state
        &&& next.window.max_data >= max_data
        &&& self.window.set_max_data_post(max_data, next.window)
    }

    pub fn set_max_data(&mut self, max_data: u64)
        requires
            old(self).wf(),
        ensures
            final(self).wf(),
            old(self).set_max_data_post(max_data, *final(self)),
    {
        self.window.set_max_data(max_data);
    }

    pub fn available(&self) -> (r: usize)
        requires
            self.wf(),
        ensures
            r == self.window.available_spec(),
    {
        self.window.available()
    }

    /// Every byte was acknowledged after the last one went out.
    pub fn is_closed(&self) -> (r: bool)
        ensures
            r == (self.state == SendState::DataRecvd),
    {
        self.state == SendState::DataRecvd
    }
}

/// What a read request gets.
#[derive(Debug)]
pub enum ReadOutcome {
    Data(Vec<u8>),
    /// Nothing to read yet: the request waits for more bytes.
    Pending,
    /// Every byte was read.
    Eof,
}

/// The receiving half of a stream and its state.
pub struct RecvStreamInner {
    pub id: u16,
    pub window: RecvWindow,
    pub state: RecvState,
}

impl RecvStreamInner {
    pub open spec fn wf(&self) -> bool {
        &&& self.window.wf()
        &&& self.state == RecvState::DataRead ==> self.window.done_spec()
    }

    /// A stream that has received nothing.
    pub open spec fn fresh(self, id: u16) -> bool {
        &&& self.wf()
        &&& self.id == id
        &&& self.state == RecvState::Recv
        &&& self.window.consumed_spec() == 0
        &&& self.window.start == 0
        &&& self.window.recv@ == Set::<int>::empty()
        &&& self.window.fin_offset is None
    }

    pub fn new(id: u16) -> (r: Self)
        ensures
            r.fresh(id),
    {
        RecvStreamInner { id, window: RecvWindow::new(), state: RecvState::Recv }
    }

    /// What `write` leaves behind, from `self` to `next`.
    pub open spec fn write_post(self, data: Vec<u8>, offset: u64, fin: bool, r: Result<usize, StreamError>, next: Self) -> bool {
        &&& next.id == self.id
        &&& recv_rank(next.state) >= recv_rank(self.state)
        &&& ((self.state == RecvState::DataRecvd || self.state == RecvState::DataRead)
                ==> r == Err::<usize, StreamError>(StreamError::Closed) && next == self)
        &&& ((self.state == RecvState::Recv || self.state == RecvState::SizeKnown) ==> (r matches Ok(
                n,
            ) && self.window.write_post(Chunk(data, offset), fin, n, next.window)))
        &&& (self.state == RecvState::Recv && fin ==> next.state == if next.window.recvd_spec() {
                RecvState::DataRecvd
            } else {
                RecvState::SizeKnown
            })
        &&& (self.state == RecvState::SizeKnown ==> next.state == if next.window.recvd_spec() {
                RecvState::DataRecvd
            } else {
                RecvState::SizeKnown
            })
        &&& (self.state == RecvState::Recv && !fin ==> next.state == RecvState::Recv)
    }

    /// Bytes of the stream arrived at `offset`, ending it if `fin`.
    pub fn write(&mut self, data: Vec<u8>, offset: u64, fin: bool) -> (r: Result<usize, StreamError>)
        requires
            old(self).wf(),
        ensures
            final(self).wf(),
            old(self).write_post(data, offset, fin, r, *final(self)),
    {
        if self.state == RecvState::DataRecvd || self.state == RecvState::DataRead {
            return Err(StreamError::Closed);
        }
        let n = self.window.write(Chunk(data, offset), fin);
        match self.state {
            RecvState::Recv => {
                if fin {
                    self.state = if self.window.recvd() {
                        RecvState::DataRecvd
                    } else {
                        RecvState::SizeKnown
                    };
                }
            },
            RecvState::SizeKnown => {
                if self.window.recvd() {
                    self.state = RecvState::DataRecvd;
                }
            },
            _ => {},
        }
        Ok(n)
    }

    /// What `read` leaves behind, from `self` to `next`.
    pub open spec fn read_post(self, len: usize, r: ReadOutcome, next: Self) -> bool {
        &&& next.id == self.id
        &&& recv_rank(next.state) >= recv_rank(self.state)
        &&& (self.state == RecvState::DataRead ==> r is Eof && next == self)
        &&& (self.state != RecvState::DataRead ==> {
                &&& (r is Pending) == (!self.window.recv@.contains(
                    self.window.consumed_spec() as int,
                ) && !(self.state == RecvState::DataRecvd && self.window.done_spec()))
                &&& (r matches ReadOutcome::Data(bytes) ==> self.window.read_post(
                    len,
                    Some(bytes),
                    next.window,
                ))
                &&& (!(r is Data) ==> self.window.read_post(len, None, next.window))
                &&& next.state == if self.state == RecvState::DataRecvd
                    && next.window.done_spec() {
                    RecvState::DataRead
                } else {
                    self.state
                }
            })
        &&& (r matches ReadOutcome::Data(bytes) ==> {
                let c = self.window.consumed_spec() as int;
                &&& next.window.consumed_spec() == c + bytes@.len()
                &&& forall|i: int|
                    0 <= i < bytes@.len() ==> #[trigger] bytes@[i] == self.window.data@[c + i]
            })
        &&& (next.state == RecvState::DataRead ==> next.window.done_spec())
    }

    /// Serves a read of up to `len` bytes, in stream order.
    pub fn read(&mut self, len: usize) -> (r: ReadOutcome)
        requires
            old(self).wf(),
        ensures
            final(self).wf(),
            old(self).read_post(len, r, *final(self)),
    {
        if self.state == RecvState::DataRead {
            return ReadOutcome::Eof;
        }
        let got = self.window.read(len);
        if self.state == RecvState::DataRecvd && self.window.done() {
            self.state = RecvState::DataRead;
        }
        match got {
            Some(bytes) => ReadOutcome::Data(bytes),
            None => {
                if self.state == RecvState::DataRead {
                    ReadOutcome::Eof
                } else {
                    ReadOutcome::Pending
                }
            },
        }
    }

    /// More than half of the window has been read.
    pub fn should_update(&self) -> (r: bool)
        requires
            self.wf(),
        ensures
            r == (self.window.consumed_spec() > self.window.start + MAX_WINDOW_SIZE / 2),
    {
        self.window.should_update()
    }

    /// What `update` leaves behind, from `self` to `next`.
    pub open spec fn update_post(self, r: Option<MaxStreamDataFrame>, next: Self) -> bool {
        &&& next.id == self.id
        &&& next.state == self.state
        &&& next.window.start == self.window.consumed_spec()
        &&& (self.state == RecvState::Recv ==> r == Some(
                MaxStreamDataFrame {
                    id: self.id,
                    max_data: (self.window.consumed_spec() + MAX_WINDOW_SIZE) as u64,
                },
            ))
        &&& (self.state != RecvState::Recv ==> r is None)
    }

    /// Moves the window up to what was read; while the end is not known,
    /// the new limit goes to the peer.
    pub fn update(&mut self) -> (r: Option<MaxStreamDataFrame>)
        requires
            old(self).wf(),
            old(self).window.consumed_spec() + MAX_WINDOW_SIZE <= u64::MAX,
        ensures
            final(self).wf(),
            old(self).update_post(r, *final(self)),
    {
        let max_data = self.window.update();
        if self.state == RecvState::Recv {
            Some(MaxStreamDataFrame { id: self.id, max_data })
        } else {
            None
        }
    }

    /// Every byte was read.
    pub fn is_closed(&self) -> (r: bool)
        ensures
            r == (self.state == RecvState::DataRead),
    {
        self.state == RecvState::DataRead
    }
}

} // verus!
