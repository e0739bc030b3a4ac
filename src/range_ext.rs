use core::ops::Range;
use vstd::prelude::*;

verus! {

/// Splitting helpers for half-open ranges of offsets.
pub trait RangeExt: Sized {
    spec fn lo(&self) -> int;

    spec fn hi(&self) -> int;

    /// The number of offsets in the range.
    fn len(&self) -> (r: usize)
        requires
            self.lo() <= self.hi(),
            self.hi() - self.lo() <= usize::MAX,
        ensures
            r == self.hi() - self.lo(),
    ;

    /// Cuts at `offset`: returns the part below it and the part from it on,
    /// and keeps the latter.
    fn split_at(&mut self, offset: u64) -> (r: (Self, Self))
        requires
            old(self).lo() <= offset <= old(self).hi(),
        ensures
            r.0.lo() == old(self).lo(),
            r.0.hi() == offset,
            r.1.lo() == offset,
            r.1.hi() == old(self).hi(),
            final(self).lo() == offset,
            final(self).hi() == old(self).hi(),
    ;

    /// Keeps the first `offset` offsets (or all of them if fewer) and returns them.
    fn split_off(&mut self, offset: u64) -> (r: Self)
        requires
            old(self).lo() + offset <= u64::MAX,
        ensures
            r.lo() == old(self).lo(),
            r.hi() == if old(self).lo() + offset < old(self).hi() {
                old(self).lo() + offset
            } else {
                old(self).hi()
            },
            final(self).lo() == old(self).lo(),
            final(self).hi() == r.hi(),
    ;

    /// Takes the first `offset` offsets (or all of them if fewer) out of the
    /// front and returns them.
    fn split_to(&mut self, offset: u64) -> (r: Self)
        requires
            old(self).lo() + offset <= u64::MAX,
        ensures
            r.lo() == old(self).lo(),
            r.hi() == if old(self).lo() + offset < old(self).hi() {
                old(self).lo() + offset
            } else {
                old(self).hi()
            },
            final(self).lo() == r.hi(),
            final(self).hi() == old(self).hi(),
    ;
}

impl RangeExt for Range<u64> {
    open spec fn lo(&self) -> int {
        self.start as int
    }

    open spec fn hi(&self) -> int {
        self.end as int
    }

    fn len(&self) -> (r: usize) {
        (self.end - self.start) as usize
    }

    fn split_at(&mut self, offset: u64) -> (r: (Self, Self)) {
        let range = self.start..offset;
        self.start = offset;
        (range, self.start..self.end)
    }

    fn split_off(&mut self, offset: u64) -> (r: Self) {
        let end = if self.start + offset < self.end {
            self.start + offset
        } else {
            self.end
        };
        let range = self.start..end;
        self.end = end;
        range
    }

    fn split_to(&mut self, offset: u64) -> (r: Self) {
        let end = if self.start + offset < self.end {
            self.start + offset
        } else {
            self.end
        };
        let range = self.start..end;
        self.start = end;
        range
    }
}

} // verus!
