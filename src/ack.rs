use crate::codec::{be16, be16_at, be64, be64_at, get_u16, get_u64, put_u16, put_u64, lemma_be16_at_bytes, lemma_be64_at_bytes};
use crate::range_set::{canonical, covers, elements_of, span, RangeSet};
use vstd::prelude::*;

verus! {

/// At most this many ranges besides the first go into an ACK frame.
pub const DEFAULT_ACK_RANGES_LIMIT: usize = 200;

/// Encoded size of an ACK frame without its additional ranges: type,
/// largest_ack, delay, range count and first range.
pub const ACK_FRAME_MIN_LEN: usize = 21;

/// Encoded size of one additional range: gap and length.
pub const ACK_RANGE_LEN: usize = 4;

/// A range below the previous one: `gap` packet numbers lie between them
/// and it holds `length` packet numbers.
#[derive(Debug, Clone, Copy, PartialEq, Eq)]
pub struct AckRange {
    pub gap: u16,
    pub length: u16,
}

/// Acknowledged packet numbers, described from the largest one downwards.
#[derive(Debug, Clone)]
pub struct AckFrame {
    /// The largest acknowledged packet number.
    pub largest_ack: u64,
    /// How long the receiver held the acknowledgement back, in milliseconds.
    pub delay: u64,
    /// The number of packet numbers in the range that ends at `largest_ack`.
    pub first_ack_range: u16,
    /// Further ranges, each below the previous one; the oldest come last.
    pub ack_ranges: Vec<AckRange>,
}

/// How many additional ranges remain when a frame of `n` of them is cut
/// down to at most `len` bytes, oldest first.
pub open spec fn kept_ranges(n: int, len: int) -> int {
    if len < ACK_FRAME_MIN_LEN {
        0
    } else if n <= (len - ACK_FRAME_MIN_LEN) / (ACK_RANGE_LEN as int) {
        n
    } else {
        (len - ACK_FRAME_MIN_LEN) / (ACK_RANGE_LEN as int)
    }
}

impl AckFrame {
    /// The frame that acknowledges nothing.
    pub fn empty() -> (r: Self)
        ensures
            r.largest_ack == 0,
            r.delay == 0,
            r.first_ack_range == 0,
            r.ack_ranges@.len() == 0,
    {
        AckFrame { largest_ack: 0, delay: 0, first_ack_range: 0, ack_ranges: Vec::new() }
    }

    pub fn set_delay(&mut self, delay: u64)
        ensures
            final(self).delay == delay,
            final(self).largest_ack == old(self).largest_ack,
            final(self).first_ack_range == old(self).first_ack_range,
            final(self).ack_ranges@ == old(self).ack_ranges@,
    {
        self.delay = delay;
    }

    /// Encoded size in bytes.
    pub fn len(&self) -> (r: usize)
        requires
            self.ack_ranges.len() <= (usize::MAX - ACK_FRAME_MIN_LEN) / (ACK_RANGE_LEN as int),
        ensures
            r == ACK_FRAME_MIN_LEN + ACK_RANGE_LEN * self.ack_ranges.len(),
    {
        ACK_FRAME_MIN_LEN + ACK_RANGE_LEN * self.ack_ranges.len()
    }

    /// Drops the oldest ranges until the frame fits in `len` bytes or has
    /// none left.
    pub fn reduce_to(&mut self, len: usize)
        requires
            old(self).ack_ranges.len() <= (usize::MAX - ACK_FRAME_MIN_LEN) / (ACK_RANGE_LEN as int),
        ensures
            final(self).ack_ranges@ == old(self).ack_ranges@.subrange(
                0,
                kept_ranges(old(self).ack_ranges.len() as int, len as int),
            ),
            final(self).largest_ack == old(self).largest_ack,
            final(self).delay == old(self).delay,
            final(self).first_ack_range == old(self).first_ack_range,
    {
        let ghost n = self.ack_ranges.len() as int;
        let ghost keep = kept_ranges(n, len as int);
        while !self.ack_ranges.is_empty() && self.len() > len
            invariant
                n == old(self).ack_ranges.len(),
                keep == kept_ranges(n, len as int),
                keep <= self.ack_ranges.len() <= n,
                n <= (usize::MAX - ACK_FRAME_MIN_LEN) / (ACK_RANGE_LEN as int),
                self.ack_ranges@ == old(self).ack_ranges@.subrange(0, self.ack_ranges.len() as int),
                self.largest_ack == old(self).largest_ack,
                self.delay == old(self).delay,
                self.first_ack_range == old(self).first_ack_range,
            decreases self.ack_ranges.len(),
        {
            proof {
                let c = self.ack_ranges.len() as int;
                assert(keep < c) by {
                    if len >= ACK_FRAME_MIN_LEN {
                        assert((len - ACK_FRAME_MIN_LEN) / 4 * 4 <= len - ACK_FRAME_MIN_LEN) by (nonlinear_arith)
                            requires len >= 21;
                    }
                }
            }
            self.ack_ranges.pop();
            assert(self.ack_ranges@ =~= old(self).ack_ranges@.subrange(0, self.ack_ranges.len() as int));
        }
        proof {
            let c = self.ack_ranges.len() as int;
            if c > 0 {
                assert(21 + 4 * c <= len);
                assert(c <= (len - 21) / 4) by (nonlinear_arith)
                    requires 21 + 4 * c <= len, c > 0;
            }
            assert(c == keep);
        }
    }
}

/// The encoded additional ranges: gap then length of each, in order.
pub open spec fn ack_ranges_bytes(rs: Seq<AckRange>) -> Seq<u8>
    decreases rs.len(),
{
    if rs.len() == 0 {
        Seq::empty()
    } else {
        ack_ranges_bytes(rs.drop_last()) + be16(rs.last().gap) + be16(rs.last().length)
    }
}

/// An ACK frame's fields on the wire, after its type byte.
pub open spec fn ack_body_bytes(f: AckFrame) -> Seq<u8> {
    be64(f.largest_ack) + be64(f.delay) + be16(f.ack_ranges@.len() as u16) + be16(f.first_ack_range)
        + ack_ranges_bytes(f.ack_ranges@)
}

/// The additional ranges read from `count` pairs of `u16` at `p`.
pub open spec fn ack_ranges_at(s: Seq<u8>, p: int, count: int) -> Seq<AckRange> {
    Seq::new(
        count as nat,
        |k: int| AckRange { gap: be16_at(s, p + 4 * k), length: be16_at(s, p + 4 * k + 2) },
    )
}

proof fn lemma_ack_ranges_bytes_len(rs: Seq<AckRange>)
    ensures
        ack_ranges_bytes(rs).len() == 4 * rs.len(),
    decreases rs.len(),
{
    if rs.len() > 0 {
        lemma_ack_ranges_bytes_len(rs.drop_last());
    }
}

proof fn lemma_ack_ranges_read(s: Seq<u8>, p: int, count: int)
    requires
        0 <= p,
        0 <= count,
        p + 4 * count <= s.len(),
    ensures
        ack_ranges_bytes(ack_ranges_at(s, p, count)) == s.subrange(p, p + 4 * count),
    decreases count,
{
    if count > 0 {
        lemma_ack_ranges_read(s, p, count - 1);
        assert(ack_ranges_at(s, p, count).drop_last() =~= ack_ranges_at(s, p, count - 1));
        let q = p + 4 * (count - 1);
        lemma_be16_at_bytes(s, q);
        lemma_be16_at_bytes(s, q + 2);
        assert(s.subrange(p, p + 4 * count) =~= s.subrange(p, q) + s.subrange(q, q + 2) + s.subrange(
            q + 2,
            q + 4,
        ));
    } else {
        assert(ack_ranges_at(s, p, 0) =~= Seq::<AckRange>::empty());
        assert(s.subrange(p, p) =~= Seq::<u8>::empty());
    }
}

impl AckFrame {
    /// Appends the frame's fields, after its type byte.
    pub fn encode(&self, buf: &mut Vec<u8>)
        requires
            self.ack_ranges@.len() <= u16::MAX,
        ensures
            final(buf)@ == old(buf)@ + ack_body_bytes(*self),
    {
        put_u64(buf, self.largest_ack);
        put_u64(buf, self.delay);
        put_u16(buf, self.ack_ranges.len() as u16);
        put_u16(buf, self.first_ack_range);
        let ghost head = buf@;
        let mut k: usize = 0;
        while k < self.ack_ranges.len()
            invariant
                k <= self.ack_ranges@.len(),
                buf@ == head + ack_ranges_bytes(self.ack_ranges@.subrange(0, k as int)),
            decreases self.ack_ranges@.len() - k,
        {
            let g = self.ack_ranges[k];
            put_u16(buf, g.gap);
            put_u16(buf, g.length);
            k += 1;
            proof {
                assert(self.ack_ranges@.subrange(0, k as int).drop_last() =~= self.ack_ranges@.subrange(
                    0,
                    k - 1,
                ));
            }
        }
        assert(self.ack_ranges@.subrange(0, self.ack_ranges@.len() as int) =~= self.ack_ranges@);
    }

    /// Reads the frame's fields at `pos`, after its type byte; returns the
    /// frame and the position after it.
    pub fn decode(data: &[u8], pos: usize) -> (r: Option<(AckFrame, usize)>)
        ensures
            r is None <==> pos + 20 > data@.len() || pos + 20 + 4 * be16_at(data@, pos + 16)
                > data@.len(),
            r matches Some((f, end)) ==> {
                let count = be16_at(data@, pos + 16) as int;
                &&& end == pos + 20 + 4 * count
                &&& f.largest_ack == be64_at(data@, pos as int)
                &&& f.delay == be64_at(data@, pos + 8)
                &&& f.first_ack_range == be16_at(data@, pos + 18)
                &&& f.ack_ranges@ == ack_ranges_at(data@, pos + 20, count)
                &&& ack_body_bytes(f) == data@.subrange(pos as int, end as int)
            },
    {
        if data.len() < 20 || pos > data.len() - 20 {
            return None;
        }
        let largest_ack = get_u64(data, pos);
        let delay = get_u64(data, pos + 8);
        let count = get_u16(data, pos + 16);
        let first_ack_range = get_u16(data, pos + 18);
        let body = pos + 20;
        if (data.len() - body) / 4 < count as usize {
            return None;
        }
        let mut ack_ranges: Vec<AckRange> = Vec::new();
        let dl = data.len();
        let mut k: usize = 0;
        while k < count as usize
            invariant
                dl == data@.len(),
                k <= count,
                body + 4 * count <= data@.len(),
                ack_ranges@ == ack_ranges_at(data@, body as int, k as int),
            decreases count - k,
        {
            let gap = get_u16(data, body + 4 * k);
            let length = get_u16(data, body + 4 * k + 2);
            ack_ranges.push(AckRange { gap, length });
            k += 1;
            assert(ack_ranges@ =~= ack_ranges_at(data@, body as int, k as int));
        }
        let f = AckFrame { largest_ack, delay, first_ack_range, ack_ranges };
        let end = body + 4 * count as usize;
        proof {
            let s = data@;
            let p = pos as int;
            lemma_be64_at_bytes(s, p);
            lemma_be64_at_bytes(s, p + 8);
            lemma_be16_at_bytes(s, p + 16);
            lemma_be16_at_bytes(s, p + 18);
            lemma_ack_ranges_read(s, body as int, count as int);
            assert(f.ack_ranges@.len() as u16 == count);
            assert(s.subrange(p, end as int) =~= s.subrange(p, p + 8) + s.subrange(p + 8, p + 16)
                + s.subrange(p + 16, p + 18) + s.subrange(p + 18, p + 20) + s.subrange(
                p + 20,
                end as int,
            ));
        }
        Some((f, end))
    }
}

/// The packet numbers that a receiver has seen, and how many ranges besides
/// the first its ACK frames may carry.
#[derive(Debug, Clone, PartialEq, Eq)]
pub struct AckSpans {
    set: RangeSet,
    limit: usize,
}

/// The first range of a frame, read back: the set so far and its least
/// element (`None` while it is empty), or `None` where the numbers run out
/// of range.
pub open spec fn decode_first(largest: u64, first: u16) -> Option<(Set<int>, Option<int>)> {
    let end = largest + 1;
    let start = end - first;
    if largest == u64::MAX || start < 0 {
        None
    } else {
        Some((span(start, end), if start < end { Some(start) } else { None }))
    }
}

/// One additional range read back below the least element so far.
pub open spec fn decode_step(st: Option<(Set<int>, Option<int>)>, g: AckRange) -> Option<
    (Set<int>, Option<int>),
> {
    match st {
        None => None,
        Some((set, low)) => match low {
            None => None,
            Some(l) => {
                let end = l - g.gap;
                let start = end - g.length;
                if start < 0 {
                    None
                } else {
                    Some((set.union(span(start, end)), if start < end { Some(start) } else { Some(l) }))
                }
            },
        },
    }
}

/// A frame's ranges read back, in order.
pub open spec fn decode_frame(largest: u64, first: u16, ranges: Seq<AckRange>) -> Option<
    (Set<int>, Option<int>),
>
    decreases ranges.len(),
{
    if ranges.len() == 0 {
        decode_first(largest, first)
    } else {
        decode_step(decode_frame(largest, first, ranges.drop_last()), ranges.last())
    }
}

/// The largest acknowledged number of a frame built from `rs`.
pub open spec fn encoded_largest(rs: Seq<(u64, u64)>) -> u64 {
    if rs.len() == 0 {
        0
    } else {
        (rs.last().1 - 1) as u64
    }
}

/// The length of the first range of a frame built from `rs`.
pub open spec fn encoded_first(rs: Seq<(u64, u64)>) -> u16 {
    if rs.len() == 0 {
        0
    } else {
        (rs.last().1 - rs.last().0) as u16
    }
}

/// How many additional ranges a frame built from `n` ranges carries.
pub open spec fn encoded_count(n: int, limit: int) -> int {
    if n <= 1 {
        0
    } else if n - 1 <= limit || n - 1 <= 1 {
        n - 1
    } else if limit < 1 {
        1
    } else {
        limit
    }
}

/// The `k`-th additional range of a frame built from `rs`: the range
/// `k + 1` places below the highest.
pub open spec fn encoded_range(rs: Seq<(u64, u64)>, k: int) -> AckRange {
    let n = rs.len() as int;
    AckRange {
        gap: (rs[n - 1 - k].0 - rs[n - 2 - k].1) as u16,
        length: (rs[n - 2 - k].1 - rs[n - 2 - k].0) as u16,
    }
}

/// The additional ranges of a frame built from `rs`.
pub open spec fn encoded_ranges(rs: Seq<(u64, u64)>, limit: int) -> Seq<AckRange> {
    Seq::new(encoded_count(rs.len() as int, limit) as nat, |k: int| encoded_range(rs, k))
}

/// Every range length and every gap between neighbours fits in 16 bits.
pub open spec fn fits_u16(rs: Seq<(u64, u64)>) -> bool {
    &&& forall|k: int| 0 <= k < rs.len() ==> #[trigger] rs[k].1 - rs[k].0 <= u16::MAX
    &&& forall|k: int| 0 < k < rs.len() ==> #[trigger] rs[k].0 - rs[k - 1].1 <= u16::MAX
}

impl AckSpans {
    pub closed spec fn set_view(&self) -> RangeSet {
        self.set
    }

    pub closed spec fn limit_view(&self) -> usize {
        self.limit
    }

    pub open spec fn wf(&self) -> bool {
        self.set_view().wf()
    }

    pub fn new() -> (r: Self)
        ensures
            r.wf(),
            r.set_view()@ == Set::<int>::empty(),
            r.limit_view() == DEFAULT_ACK_RANGES_LIMIT,
    {
        AckSpans { set: RangeSet::new(), limit: DEFAULT_ACK_RANGES_LIMIT }
    }

    pub fn with_ranges_limit(self, limit: usize) -> (r: Self)
        ensures
            r.set_view() == self.set_view(),
            r.limit_view() == limit,
    {
        AckSpans { limit, ..self }
    }

    /// Records packet number `x`; `true` iff it is new.
    pub fn insert(&mut self, x: u64) -> (r: bool)
        requires
            old(self).wf(),
            x < u64::MAX,
        ensures
            final(self).wf(),
            final(self).set_view()@ == old(self).set_view()@.insert(x as int),
            final(self).limit_view() == old(self).limit_view(),
            r == !old(self).set_view()@.contains(x as int),
    {
        self.set.insert_one(x)
    }

    pub fn contains(&self, x: u64) -> (r: bool)
        requires
            self.wf(),
        ensures
            r == self.set_view()@.contains(x as int),
    {
        self.set.contains(x)
    }

    /// The ACK frame that describes these packet numbers, highest range first,
    /// with no delay set.
    pub fn to_frame(&self) -> (r: AckFrame)
        requires
            self.wf(),
        ensures
            r.largest_ack == encoded_largest(self.set_view().spans()),
            r.first_ack_range == encoded_first(self.set_view().spans()),
            r.ack_ranges@ == encoded_ranges(self.set_view().spans(), self.limit_view() as int),
            r.delay == 0,
    {
        let ghost rs = self.set.spans();
        let spans = self.set.iter();
        let n = spans.len();
        if n == 0 {
            let r = AckFrame::empty();
            assert(r.ack_ranges@ =~= encoded_ranges(rs, self.limit as int));
            return r;
        }
        proof {
            assert(rs[n - 1].0 < rs[n - 1].1);
            assert(spans@[n - 1].start == rs[n - 1].0 && spans@[n - 1].end == rs[n - 1].1);
        }
        let largest_ack = spans[n - 1].end - 1;
        let first_ack_range = #[verifier::truncate] ((spans[n - 1].end - spans[n - 1].start) as u16);
        let mut ack_ranges: Vec<AckRange> = Vec::new();
        let mut cur: usize = n - 1;
        let mut done = false;
        while cur > 0 && !done
            invariant
                n == spans@.len() == rs.len(),
                canonical(rs),
                forall|k: int|
                    #![trigger spans@[k]]
                    0 <= k < n ==> spans@[k].start == rs[k].0 && spans@[k].end == rs[k].1,
                cur < n,
                ack_ranges@.len() == n - 1 - cur + (if done { 1int } else { 0 }),
                forall|k: int|
                    0 <= k < ack_ranges@.len() ==> #[trigger] ack_ranges@[k] == encoded_range(rs, k),
                !done ==> (ack_ranges@.len() == 0 || ack_ranges@.len() < self.limit),
                done ==> ack_ranges@.len() >= self.limit && (ack_ranges@.len() == 1
                    || ack_ranges@.len() - 1 < self.limit),
                done ==> ack_ranges@.len() <= n - 1,
            decreases cur + (if done { 0int } else { 1 }),
        {
            proof {
                assert(rs[cur - 1].1 < rs[cur as int].0);
                assert(rs[cur - 1].0 < rs[cur - 1].1);
                assert(spans@[cur as int].start == rs[cur as int].0);
                assert(spans@[cur - 1].start == rs[cur - 1].0 && spans@[cur - 1].end == rs[cur - 1].1);
            }
            let gap = #[verifier::truncate] ((spans[cur].start - spans[cur - 1].end) as u16);
            let length = #[verifier::truncate] ((spans[cur - 1].end - spans[cur - 1].start) as u16);
            ack_ranges.push(AckRange { gap, length });
            if ack_ranges.len() >= self.limit {
                done = true;
            } else {
                cur -= 1;
            }
        }
        let r = AckFrame { largest_ack, delay: 0, first_ack_range, ack_ranges };
        assert(r.ack_ranges@ =~= encoded_ranges(rs, self.limit as int));
        r
    }

    /// The packet numbers that `frame` acknowledges, or `None` where its
    /// ranges run below zero or past the largest number.
    pub fn from_frame(frame: &AckFrame) -> (r: Option<AckSpans>)
        ensures
            r is Some <==> decode_frame(
                frame.largest_ack,
                frame.first_ack_range,
                frame.ack_ranges@,
            ) is Some,
            r matches Some(sp) ==> sp.wf() && sp.set_view()@ == decode_frame(
                frame.largest_ack,
                frame.first_ack_range,
                frame.ack_ranges@,
            ).unwrap().0 && sp.limit_view() == DEFAULT_ACK_RANGES_LIMIT,
    {
        let ghost l = frame.largest_ack;
        let ghost f = frame.first_ack_range;
        let ghost all = frame.ack_ranges@;
        if frame.largest_ack == u64::MAX {
            proof {
                lemma_decode_none_stays(l, f, all, 0);
            }
            return None;
        }
        let end = frame.largest_ack + 1;
        if frame.first_ack_range as u64 > end {
            proof {
                lemma_decode_none_stays(l, f, all, 0);
            }
            return None;
        }
        let start = end - frame.first_ack_range as u64;
        let mut set = RangeSet::new();
        set.insert(start..end);
        proof {
            assert(Set::<int>::empty().union(span(start as int, end as int)) =~= span(
                start as int,
                end as int,
            ));
            assert(all.subrange(0, 0) =~= Seq::<AckRange>::empty());
            if start < end {
                assert(span(start as int, end as int).contains(start as int));
            } else {
                assert(span(start as int, end as int) =~= Set::<int>::empty());
            }
        }
        let mut k: usize = 0;
        while k < frame.ack_ranges.len()
            invariant
                all == frame.ack_ranges@,
                l == frame.largest_ack,
                f == frame.first_ack_range,
                k <= all.len(),
                set.wf(),
                decode_frame(l, f, all.subrange(0, k as int)) matches Some(st) && st.0 == set@ && (
                st.1 is None <==> set@ == Set::<int>::empty()) && (st.1 matches Some(m) ==> set@.contains(m)
                    && forall|y: int| #[trigger] set@.contains(y) ==> m <= y),
            decreases all.len() - k,
        {
            let ghost st = decode_frame(l, f, all.subrange(0, k as int)).unwrap();
            proof {
                assert(all.subrange(0, k + 1).drop_last() =~= all.subrange(0, k as int));
                assert(all.subrange(0, k + 1).last() == all[k as int]);
            }
            let low = match set.min() {
                None => {
                    proof {
                        lemma_decode_none_stays(l, f, all, k + 1);
                    }
                    return None;
                },
                Some(v) => v,
            };
            proof {
                assert(st.1 == Some(low as int)) by {
                    let m = st.1.unwrap();
                    assert(low <= m && m <= low);
                }
            }
            let g = frame.ack_ranges[k];
            if g.gap as u64 > low {
                proof {
                    lemma_decode_none_stays(l, f, all, k + 1);
                }
                return None;
            }
            let e2 = low - g.gap as u64;
            if g.length as u64 > e2 {
                proof {
                    lemma_decode_none_stays(l, f, all, k + 1);
                }
                return None;
            }
            let s2 = e2 - g.length as u64;
            let ghost before = set@;
            set.insert(s2..e2);
            proof {
                if s2 < e2 {
                    assert(set@.contains(s2 as int));
                    assert forall|y: int| #[trigger] set@.contains(y) implies s2 <= y by {
                        if before.contains(y) {
                            assert(low <= y);
                        }
                    }
                } else {
                    assert(span(s2 as int, e2 as int) =~= Set::<int>::empty());
                    assert(set@ =~= before);
                }
            }
            k += 1;
        }
        assert(all.subrange(0, all.len() as int) =~= all);
        Some(AckSpans { set, limit: DEFAULT_ACK_RANGES_LIMIT })
    }
}

/// Once reading a frame fails, reading more of its ranges fails too.
proof fn lemma_decode_none_stays(l: u64, f: u16, all: Seq<AckRange>, k: int)
    requires
        0 <= k <= all.len(),
        decode_frame(l, f, all.subrange(0, k)) is None,
    ensures
        decode_frame(l, f, all) is None,
    decreases all.len() - k,
{
    if k < all.len() {
        assert(all.subrange(0, k + 1).drop_last() =~= all.subrange(0, k));
        lemma_decode_none_stays(l, f, all, k + 1);
    } else {
        assert(all.subrange(0, k) =~= all);
    }
}

proof fn lemma_elements_prepend(rs: Seq<(u64, u64)>, a: int)
    requires
        1 <= a <= rs.len(),
    ensures
        elements_of(rs.subrange(a - 1, rs.len() as int)) == elements_of(
            rs.subrange(a, rs.len() as int),
        ).union(span(rs[a - 1].0 as int, rs[a - 1].1 as int)),
{
    let n = rs.len() as int;
    let big = rs.subrange(a - 1, n);
    let small = rs.subrange(a, n);
    assert forall|y: int| #[trigger]
        covers(big, y) <==> covers(small, y) || (rs[a - 1].0 <= y < rs[a - 1].1) by {
        if covers(big, y) {
            let t = choose|t: int| #![trigger big[t]] 0 <= t < big.len() && big[t].0 <= y < big[t].1;
            if t > 0 {
                assert(small[t - 1].0 <= y < small[t - 1].1);
            }
        }
        if covers(small, y) {
            let t = choose|t: int| #![trigger small[t]] 0 <= t < small.len() && small[t].0 <= y < small[t].1;
            assert(big[t + 1].0 <= y < big[t + 1].1);
        }
        if rs[a - 1].0 <= y < rs[a - 1].1 {
            assert(big[0].0 <= y < big[0].1);
        }
    }
    assert(elements_of(big) =~= elements_of(small).union(span(rs[a - 1].0 as int, rs[a - 1].1 as int)));
}

proof fn lemma_decode_prefix(rs: Seq<(u64, u64)>, limit: int, m: int)
    requires
        canonical(rs),
        fits_u16(rs),
        rs.len() >= 1,
        0 <= m <= encoded_count(rs.len() as int, limit),
    ensures
        decode_frame(
            encoded_largest(rs),
            encoded_first(rs),
            encoded_ranges(rs, limit).subrange(0, m),
        ) == Some(
            (
                elements_of(rs.subrange(rs.len() - 1 - m, rs.len() as int)),
                Some(rs[rs.len() - 1 - m].0 as int),
            ),
        ),
    decreases m,
{
    let n = rs.len() as int;
    let enc = encoded_ranges(rs, limit);
    if m == 0 {
        assert(enc.subrange(0, 0) =~= Seq::<AckRange>::empty());
        assert(rs[n - 1].0 < rs[n - 1].1);
        assert(rs[n - 1].1 - rs[n - 1].0 <= u16::MAX);
        lemma_elements_prepend(rs, n);
        assert(rs.subrange(n, n) =~= Seq::<(u64, u64)>::empty());
        assert(elements_of(Seq::<(u64, u64)>::empty()) =~= Set::<int>::empty());
        assert(Set::<int>::empty().union(span(rs[n - 1].0 as int, rs[n - 1].1 as int)) =~= span(
            rs[n - 1].0 as int,
            rs[n - 1].1 as int,
        ));
    } else {
        lemma_decode_prefix(rs, limit, m - 1);
        assert(enc.subrange(0, m).drop_last() =~= enc.subrange(0, m - 1));
        let g = enc[m - 1];
        assert(g == encoded_range(rs, m - 1));
        let hi = n - m;
        let lo = n - 1 - m;
        assert(rs[lo].1 < rs[hi].0);
        assert(rs[lo].0 < rs[lo].1);
        assert(rs[hi].0 - rs[hi - 1].1 <= u16::MAX);
        assert(rs[lo].1 - rs[lo].0 <= u16::MAX);
        assert(g.gap == rs[hi].0 - rs[lo].1);
        assert(g.length == rs[lo].1 - rs[lo].0);
        lemma_elements_prepend(rs, hi);
    }
}

/// Reading back the ACK frame built from a set of packet numbers gives the
/// same set, as long as all its ranges fit in the frame and each range
/// length and gap fits in 16 bits.
pub proof fn lemma_ack_round_trip(rs: Seq<(u64, u64)>, limit: int)
    requires
        canonical(rs),
        fits_u16(rs),
        rs.len() <= limit + 1,
    ensures
        decode_frame(encoded_largest(rs), encoded_first(rs), encoded_ranges(rs, limit)) matches Some(
            st,
        ) && st.0 == elements_of(rs),
{
    let n = rs.len() as int;
    if n == 0 {
        assert(encoded_ranges(rs, limit) =~= Seq::<AckRange>::empty());
        assert(span(1, 1) =~= Set::<int>::empty());
        assert(elements_of(rs) =~= Set::<int>::empty());
    } else {
        lemma_decode_prefix(rs, limit, n - 1);
        assert(encoded_ranges(rs, limit).subrange(0, n - 1) =~= encoded_ranges(rs, limit));
        assert(rs.subrange(0, n) =~= rs);
    }
}

} // verus!
