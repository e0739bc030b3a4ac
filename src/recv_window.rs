use crate::range_set::{span, RangeSet};
use crate::send_window::MAX_WINDOW_SIZE;
use crate::window_buf::{overlay, Chunk, WindowBuf};
use vstd::prelude::*;

verus! {

/// The bytes of `data`, keyed by their offsets from `offset` on.
pub open spec fn chunk_map(data: Seq<u8>, offset: int) -> Map<int, u8> {
    Map::new(|x: int| offset <= x < offset + data.len(), |x: int| data[x - offset])
}

/// The receiving half of a stream: received bytes by offset, handed to the
/// application in stream order.
pub struct RecvWindow {
    /// Bytes from the consumed offset `buf.start` on.
    pub buf: WindowBuf,
    /// Received offsets not yet read.
    pub recv: RangeSet,
    /// Left edge of the flow-control window.
    pub start: u64,
    /// The stream's end, once a FIN has arrived.
    pub fin_offset: Option<u64>,
    /// The byte last received at each offset.
    pub data: Ghost<Map<int, u8>>,
}

impl RecvWindow {
    pub open spec fn consumed_spec(&self) -> u64 {
        self.buf.start
    }

    pub open spec fn max_stream_data_spec(&self) -> int {
        self.start + MAX_WINDOW_SIZE
    }

    pub open spec fn wf(&self) -> bool {
        &&& self.buf.wf()
        &&& self.start <= self.buf.start
        &&& self.buf.start + self.buf.buf@.len() <= self.start + MAX_WINDOW_SIZE
        &&& self.start + MAX_WINDOW_SIZE <= u64::MAX
        &&& self.recv.wf()
        &&& forall|x: int| #[trigger]
            self.recv@.contains(x) ==> self.buf.start <= x < self.buf.start + self.buf.buf@.len()
                && self.data@.contains_key(x) && self.buf.buf@[x - self.buf.start] == self.data@[x]
    }

    pub fn new() -> (r: Self)
        ensures
            r.wf(),
            r.start == 0,
            r.consumed_spec() == 0,
            r.recv@ == Set::<int>::empty(),
            r.fin_offset is None,
    {
        RecvWindow {
            buf: WindowBuf::zeroed(MAX_WINDOW_SIZE as usize),
            recv: RangeSet::new(),
            start: 0,
            fin_offset: None,
            data: Ghost(Map::empty()),
        }
    }

    /// What `write` leaves behind, from `self` to `next`.
    pub open spec fn write_post(self, chunk: Chunk, fin: bool, r: usize, next: Self) -> bool {
        &&& next.start == self.start
        &&& next.consumed_spec() == self.consumed_spec()
        &&& ({
                let Chunk(data, offset) = chunk;
                let end = offset + data@.len();
                let accepted = data@.len() > 0 && offset >= self.consumed_spec() && end
                    <= self.max_stream_data_spec();
                &&& !accepted ==> r == 0 && next.recv == self.recv
                    && next.fin_offset == self.fin_offset
                    && next.data == self.data
                &&& accepted ==> {
                    &&& r == data@.len()
                    &&& next.recv@ == self.recv@.union(span(offset as int, end))
                    &&& next.data@ == self.data@.union_prefer_right(
                        chunk_map(data@, offset as int),
                    )
                    &&& next.fin_offset == if fin {
                        Some(end as u64)
                    } else {
                        self.fin_offset
                    }
                }
            })
    }

    /// Takes in the bytes of `chunk`, marking the stream's end there if `fin`.
    /// Empty chunks, ones below the consumed offset and ones past the
    /// flow-control limit are ignored (the result is 0).
    pub fn write(&mut self, chunk: Chunk, fin: bool) -> (r: usize)
        requires
            old(self).wf(),
        ensures
            final(self).wf(),
            old(self).write_post(chunk, fin, r, *final(self)),
    {
        let Chunk(data, offset) = chunk;
        let consumed = self.buf.start;
        if data.len() == 0 || offset < consumed {
            return 0;
        }
        let limit = self.start + MAX_WINDOW_SIZE;
        if offset > limit || data.len() as u64 > limit - offset {
            return 0;
        }
        let end = offset + data.len() as u64;
        let ghost old_buf = self.buf.buf@;
        let ghost r0 = self.recv@;
        let ghost d0 = self.data@;
        assert(offset - self.buf.start + data@.len() <= MAX_WINDOW_SIZE);
        let n = self.buf.write(data.as_slice(), offset);
        self.recv.insert(offset..end);
        if fin {
            self.fin_offset = Some(end);
        }
        self.data = Ghost(d0.union_prefer_right(chunk_map(data@, offset as int)));
        proof {
            let p = offset - consumed;
            assert forall|x: int| #[trigger] self.recv@.contains(x) implies consumed <= x < consumed
                + self.buf.buf@.len() && self.data@.contains_key(x) && self.buf.buf@[x - consumed]
                == self.data@[x] by {
                if offset <= x < end {
                } else {
                    assert(r0.contains(x));
                }
            }
        }
        n
    }

    /// What `read` leaves behind, from `self` to `next`.
    pub open spec fn read_post(self, len: usize, r: Option<Vec<u8>>, next: Self) -> bool {
        &&& next.start == self.start
        &&& next.fin_offset == self.fin_offset
        &&& next.data == self.data
        &&& (r is None <==> !self.recv@.contains(self.consumed_spec() as int))
        &&& (r is None ==> next.consumed_spec() == self.consumed_spec() && next.recv
                == self.recv)
        &&& (r matches Some(bytes) ==> {
                let c = self.consumed_spec() as int;
                let g = self.recv.spans()[0];
                let n = if len < g.1 - g.0 {
                    len as int
                } else {
                    g.1 - g.0
                };
                &&& g.0 == c
                &&& bytes@.len() == n
                &&& forall|i: int| 0 <= i < n ==> #[trigger] bytes@[i] == self.data@[c + i]
                &&& next.consumed_spec() == c + n
                &&& next.recv@ == self.recv@.difference(span(c, c + n))
            })
    }

    /// Hands out up to `len` bytes from the consumed offset on, or `None`
    /// while the byte there has not arrived.
    pub fn read(&mut self, len: usize) -> (r: Option<Vec<u8>>)
        requires
            old(self).wf(),
        ensures
            final(self).wf(),
            old(self).read_post(len, r, *final(self)),
    {
        let consumed = self.buf.start;
        let ghost before = self.recv@;
        let ghost rs = self.recv.spans();
        match self.recv.min() {
            None => {
                return None;
            },
            Some(m) => {
                if m != consumed {
                    proof {
                        if before.contains(consumed as int) {
                            assert(before.contains(m as int));
                        }
                    }
                    return None;
                }
            },
        }
        let range = self.recv.pop_front().unwrap();
        proof {
            assert(before.contains(range.end - 1));
        }
        let glen = range.end - range.start;
        let n: u64 = if (len as u64) < glen {
            len as u64
        } else {
            glen
        };
        if n < glen {
            self.recv.insert(range.start + n..range.end);
        }
        let ghost old_buf = self.buf.buf@;
        let bytes = self.buf.split_to(consumed + n);
        proof {
            assert(self.recv@ =~= before.difference(span(consumed as int, consumed + n)));
            assert forall|i: int| 0 <= i < n implies #[trigger] bytes@[i] == self.data@[consumed + i] by {
                assert(before.contains(consumed + i));
            }
            assert forall|x: int| #[trigger] self.recv@.contains(x) implies self.buf.start <= x
                < self.buf.start + self.buf.buf@.len() && self.data@.contains_key(x)
                && self.buf.buf@[x - self.buf.start] == self.data@[x] by {
                assert(before.contains(x));
            }
        }
        Some(bytes)
    }

    /// More than half of the window has been read.
    pub fn should_update(&self) -> (r: bool)
        requires
            self.wf(),
        ensures
            r == (self.consumed_spec() > self.start + MAX_WINDOW_SIZE / 2),
    {
        self.buf.start > self.start + MAX_WINDOW_SIZE / 2
    }

    /// Moves the window's left edge to the consumed offset and returns the
    /// new flow-control limit.
    pub fn update(&mut self) -> (r: u64)
        requires
            old(self).wf(),
            old(self).consumed_spec() + MAX_WINDOW_SIZE <= u64::MAX,
        ensures
            final(self).wf(),
            final(self).start == old(self).consumed_spec(),
            final(self).consumed_spec() == old(self).consumed_spec(),
            final(self).recv == old(self).recv,
            final(self).fin_offset == old(self).fin_offset,
            final(self).data == old(self).data,
            r == old(self).consumed_spec() + MAX_WINDOW_SIZE,
            r == final(self).max_stream_data_spec(),
    {
        let ghost old_buf = self.buf.buf@;
        self.start = self.buf.start;
        self.buf.resize(MAX_WINDOW_SIZE as usize, 0);
        proof {
            assert forall|x: int| #[trigger] self.recv@.contains(x) implies self.buf.start <= x
                < self.buf.start + self.buf.buf@.len() && self.data@.contains_key(x)
                && self.buf.buf@[x - self.buf.start] == self.data@[x] by {
                assert(self.buf.buf@[x - self.buf.start] == old_buf[x - self.buf.start]);
            }
        }
        self.max_stream_data()
    }

    pub fn max_stream_data(&self) -> (r: u64)
        requires
            self.wf(),
        ensures
            r == self.max_stream_data_spec(),
    {
        self.start + MAX_WINDOW_SIZE
    }

    pub open spec fn recvd_spec(&self) -> bool {
        self.fin_offset matches Some(f) && self.recv.spans().len() == 1 && self.recv.spans()[0] == (
        self.consumed_spec(), f)
    }

    pub open spec fn done_spec(&self) -> bool {
        self.fin_offset == Some(self.consumed_spec())
    }

    /// The end is known and every byte up to it has arrived.
    pub fn recvd(&self) -> (r: bool)
        ensures
            r == self.recvd_spec(),
    {
        match self.fin_offset {
            None => false,
            Some(f) => {
                if self.recv.len() != 1 {
                    false
                } else {
                    let first = self.recv.first().unwrap();
                    first.start == self.buf.start && first.end == f
                }
            },
        }
    }

    /// Every byte up to the end has been read.
    pub fn done(&self) -> (r: bool)
        ensures
            r == self.done_spec(),
    {
        match self.fin_offset {
            None => false,
            Some(f) => f == self.buf.start,
        }
    }

    /// The offset up to which the application has read.
    pub fn consumed(&self) -> (r: u64)
        ensures
            r == self.consumed_spec(),
    {
        self.buf.start
    }
}

} // verus!
