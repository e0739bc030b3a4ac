use vstd::prelude::*;

verus! {

/// Bytes with their absolute offset, as a stream frame carries them.
#[derive(Debug)]
pub struct Chunk(pub Vec<u8>, pub u64);

/// A byte buffer whose first byte sits at stream offset `start`.
#[derive(Debug)]
pub struct WindowBuf {
    pub buf: Vec<u8>,
    pub start: u64,
}

/// `old` with `data` laid over it from position `p`, zero-filled where it
/// grows.
pub open spec fn overlay(old: Seq<u8>, p: int, data: Seq<u8>) -> Seq<u8> {
    let len = if p + data.len() > old.len() {
        p + data.len()
    } else {
        old.len() as int
    };
    Seq::new(
        len as nat,
        |i: int|
            if p <= i < p + data.len() {
                data[i - p]
            } else if i < old.len() {
                old[i]
            } else {
                0u8
            },
    )
}

impl WindowBuf {
    pub open spec fn wf(&self) -> bool {
        self.start + self.buf@.len() <= u64::MAX
    }

    pub fn with_capacity(cap: usize) -> (r: Self)
        ensures
            r.wf(),
            r.start == 0,
            r.buf@.len() == 0,
    {
        WindowBuf { buf: Vec::with_capacity(cap), start: 0 }
    }

    pub fn zeroed(len: usize) -> (r: Self)
        ensures
            r.wf(),
            r.start == 0,
            r.buf@ == Seq::new(len as nat, |i: int| 0u8),
    {
        let mut buf: Vec<u8> = Vec::with_capacity(len);
        let mut k: usize = 0;
        while k < len
            invariant
                k <= len,
                buf@ == Seq::new(k as nat, |i: int| 0u8),
            decreases len - k,
        {
            buf.push(0);
            k += 1;
            assert(buf@ =~= Seq::new(k as nat, |i: int| 0u8));
        }
        WindowBuf { buf, start: 0 }
    }

    /// Copies out the bytes at offsets `lo..hi`.
    pub fn read(&self, lo: u64, hi: u64) -> (r: Chunk)
        requires
            self.start <= lo <= hi,
            hi - self.start <= self.buf@.len(),
        ensures
            r.1 == lo,
            r.0@ == self.buf@.subrange(lo - self.start, hi - self.start),
    {
        let blen = self.buf.len();
        assert(hi - self.start <= blen);
        let a = (lo - self.start) as usize;
        let b = (hi - self.start) as usize;
        let mut out: Vec<u8> = Vec::with_capacity(b - a);
        let mut k: usize = a;
        while k < b
            invariant
                a <= k <= b <= self.buf@.len(),
                out@ == self.buf@.subrange(a as int, k as int),
            decreases b - k,
        {
            out.push(self.buf[k]);
            k += 1;
            assert(out@ =~= self.buf@.subrange(a as int, k as int));
        }
        Chunk(out, lo)
    }

    /// Writes `data` at stream offset `offset`, growing the buffer with
    /// zeros where needed.
    pub fn write(&mut self, data: &[u8], offset: u64) -> (r: usize)
        requires
            old(self).wf(),
            offset >= old(self).start,
            offset + data@.len() <= u64::MAX,
            offset - old(self).start + data@.len() <= usize::MAX,
        ensures
            final(self).wf(),
            r == data@.len(),
            final(self).start == old(self).start,
            final(self).buf@ == overlay(old(self).buf@, offset - old(self).start, data@),
    {
        let p = (offset - self.start) as usize;
        let end = p + data.len();
        let ghost target = overlay(self.buf@, p as int, data@);
        let ghost old_buf = self.buf@;
        while self.buf.len() < end
            invariant
                self.start == old(self).start,
                old_buf.len() <= self.buf@.len() <= (if end > old_buf.len() { end as int } else { old_buf.len() as int }),
                forall|i: int| 0 <= i < old_buf.len() ==> #[trigger] self.buf@[i] == old_buf[i],
                forall|i: int| old_buf.len() <= i < self.buf@.len() ==> #[trigger] self.buf@[i] == 0u8,
            decreases end - self.buf.len(),
        {
            self.buf.push(0);
        }
        let mut k: usize = 0;
        while k < data.len()
            invariant
                self.start == old(self).start,
                end == p + data@.len(),
                self.buf@.len() == target.len(),
                k <= data@.len(),
                target == overlay(old_buf, p as int, data@),
                forall|i: int|
                    0 <= i < self.buf@.len() ==> #[trigger] self.buf@[i] == if p <= i < p + k {
                        data@[i - p]
                    } else if i < old_buf.len() {
                        old_buf[i]
                    } else {
                        0u8
                    },
            decreases data@.len() - k,
        {
            self.buf.set(p + k, data[k]);
            k += 1;
        }
        assert(self.buf@ =~= target);
        assert(p == offset - self.start);
        data.len()
    }

    pub fn extend_from_slice(&mut self, data: &[u8])
        ensures
            final(self).start == old(self).start,
            final(self).buf@ == old(self).buf@ + data@,
    {
        let mut k: usize = 0;
        while k < data.len()
            invariant
                k <= data@.len(),
                self.start == old(self).start,
                self.buf@ == old(self).buf@ + data@.subrange(0, k as int),
            decreases data@.len() - k,
        {
            self.buf.push(data[k]);
            k += 1;
            assert(self.buf@ =~= old(self).buf@ + data@.subrange(0, k as int));
        }
        assert(data@.subrange(0, data@.len() as int) =~= data@);
    }

    /// Takes out the bytes below stream offset `offset`.
    pub fn split_to(&mut self, offset: u64) -> (r: Vec<u8>)
        requires
            old(self).start <= offset <= old(self).start + old(self).buf@.len(),
        ensures
            final(self).start == offset,
            r@ == old(self).buf@.subrange(0, offset - old(self).start),
            final(self).buf@ == old(self).buf@.subrange(
                offset - old(self).start,
                old(self).buf@.len() as int,
            ),
    {
        let blen = self.buf.len();
        assert(offset - self.start <= blen);
        let at = (offset - self.start) as usize;
        let mut rest = self.buf.split_off(at);
        core::mem::swap(&mut self.buf, &mut rest);
        self.start = offset;
        rest
    }

    pub fn resize(&mut self, new_len: usize, value: u8)
        ensures
            final(self).start == old(self).start,
            final(self).buf@ == if new_len <= old(self).buf@.len() {
                old(self).buf@.subrange(0, new_len as int)
            } else {
                old(self).buf@ + Seq::new((new_len - old(self).buf@.len()) as nat, |i: int| value)
            },
    {
        if new_len <= self.buf.len() {
            self.buf.truncate(new_len);
        } else {
            let ghost old_buf = self.buf@;
            let ghost extra = (new_len - old_buf.len()) as nat;
            while self.buf.len() < new_len
                invariant
                    old_buf.len() <= self.buf@.len() <= new_len,
                    extra == new_len - old_buf.len(),
                    self.start == old(self).start,
                    self.buf@ == old_buf + Seq::new((self.buf@.len() - old_buf.len()) as nat, |i: int| value),
                decreases new_len - self.buf.len(),
            {
                self.buf.push(value);
                assert(self.buf@ =~= old_buf + Seq::new((self.buf@.len() - old_buf.len()) as nat, |i: int| value));
            }
        }
    }

    pub fn start(&self) -> (r: u64)
        ensures
            r == self.start,
    {
        self.start
    }
}

} // verus!
