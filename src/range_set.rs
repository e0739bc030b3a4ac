use core::ops::Range;
use vstd::prelude::*;

verus! {

/// The integers `x` with `s <= x < e`.
pub open spec fn span(s: int, e: int) -> Set<int> {
    Set::new(|x: int| s <= x < e)
}

/// Some pair `(start, end)` of `rs` holds `x` in `start..end`.
pub open spec fn covers(rs: Seq<(u64, u64)>, x: int) -> bool {
    exists|i: int| #![trigger rs[i]] 0 <= i < rs.len() && rs[i].0 <= x < rs[i].1
}

/// The ranges are non-empty, sorted, pairwise disjoint and never adjacent.
pub open spec fn canonical(rs: Seq<(u64, u64)>) -> bool {
    &&& forall|i: int| #![trigger rs[i]] 0 <= i < rs.len() ==> rs[i].0 < rs[i].1
    &&& forall|i: int, j: int| #![trigger rs[i], rs[j]] 0 <= i < j < rs.len() ==> rs[i].1 < rs[j].0
}

/// The set of elements that the ranges hold.
pub open spec fn elements_of(rs: Seq<(u64, u64)>) -> Set<int> {
    Set::new(|x: int| covers(rs, x))
}

/// `rs` with the pairs at `i..j` replaced by those of `mid`.
fn splice(rs: &Vec<(u64, u64)>, i: usize, j: usize, mid: &Vec<(u64, u64)>) -> (r: Vec<(u64, u64)>)
    requires
        i <= j <= rs.len(),
    ensures
        r@ == rs@.subrange(0, i as int) + mid@ + rs@.subrange(j as int, rs.len() as int),
{
    let mut r: Vec<(u64, u64)> = Vec::new();
    let mut k: usize = 0;
    while k < i
        invariant
            k <= i <= j <= rs.len(),
            r@ == rs@.subrange(0, k as int),
        decreases i - k,
    {
        r.push(rs[k]);
        k += 1;
        assert(r@ =~= rs@.subrange(0, k as int));
    }
    let mut k: usize = 0;
    while k < mid.len()
        invariant
            k <= mid.len(),
            i <= j <= rs.len(),
            r@ == rs@.subrange(0, i as int) + mid@.subrange(0, k as int),
        decreases mid.len() - k,
    {
        r.push(mid[k]);
        k += 1;
        assert(r@ =~= rs@.subrange(0, i as int) + mid@.subrange(0, k as int));
    }
    assert(mid@.subrange(0, mid.len() as int) =~= mid@);
    let mut k: usize = j;
    while k < rs.len()
        invariant
            i <= j <= k <= rs.len(),
            r@ == rs@.subrange(0, i as int) + mid@ + rs@.subrange(j as int, k as int),
        decreases rs.len() - k,
    {
        r.push(rs[k]);
        k += 1;
        assert(r@ =~= rs@.subrange(0, i as int) + mid@ + rs@.subrange(j as int, k as int));
    }
    r
}

/// The first index whose range ends at or after `x` (`touch`), or after `x` (`!touch`).
fn first_reaching(rs: &Vec<(u64, u64)>, x: u64, touch: bool) -> (i: usize)
    ensures
        i <= rs.len(),
        forall|k: int| 0 <= k < i ==> if touch { #[trigger] rs@[k].1 < x } else { rs@[k].1 <= x },
        i < rs.len() ==> if touch { rs@[i as int].1 >= x } else { rs@[i as int].1 > x },
{
    let n = rs.len();
    let mut i: usize = 0;
    while i < n && (rs[i].1 < x || (!touch && rs[i].1 == x))
        invariant
            n == rs.len(),
            i <= n,
            forall|k: int| 0 <= k < i ==> if touch { #[trigger] rs@[k].1 < x } else { rs@[k].1 <= x },
        decreases n - i,
    {
        i += 1;
    }
    i
}

/// Where `s..e` is not inside the range at the first index that reaches `s`,
/// some element of `s..e` is missing from the set.
proof fn lemma_not_subset(rs: Seq<(u64, u64)>, s: int, e: int, i: int)
    requires
        canonical(rs),
        s < e,
        0 <= i <= rs.len(),
        forall|k: int| 0 <= k < i ==> #[trigger] rs[k].1 < s,
        i < rs.len() ==> rs[i].1 >= s,
        !(i < rs.len() && rs[i].0 <= s && e <= rs[i].1),
    ensures
        !span(s, e).subset_of(elements_of(rs)),
{
    let y = if i == rs.len() || rs[i].0 > s { s } else { rs[i].1 as int };
    assert(span(s, e).contains(y));
    assert forall|k: int| 0 <= k < rs.len() implies !(#[trigger] rs[k].0 <= y && y < rs[k].1) by {
        if k > i {
            assert(rs[i].1 < rs[k].0);
        }
    }
    assert(!elements_of(rs).contains(y));
}

/// What `insert` knows when it rebuilds the ranges: `i` is the first range
/// that reaches `s`, and `i..j` are those that touch `s..e`.
pub open spec fn insert_frame(rs: Seq<(u64, u64)>, s: int, e: int, i: int, j: int, ns: u64, ne: u64) -> bool {
    &&& canonical(rs)
    &&& s < e
    &&& 0 <= i <= j <= rs.len()
    &&& forall|k: int| 0 <= k < i ==> #[trigger] rs[k].1 < s
    &&& i < rs.len() ==> rs[i].1 >= s
    &&& forall|k: int| i <= k < j ==> #[trigger] rs[k].0 <= e
    &&& j < rs.len() ==> rs[j].0 > e
    &&& ns == (if i < j && rs[i].0 < s { rs[i].0 as int } else { s })
    &&& ne == (if i < j && rs[j - 1].1 > e { rs[j - 1].1 as int } else { e })
}

proof fn lemma_insert_shape(rs: Seq<(u64, u64)>, m: Seq<(u64, u64)>, s: int, e: int, i: int, j: int, ns: u64, ne: u64)
    requires
        insert_frame(rs, s, e, i, j, ns, ne),
        m == rs.subrange(0, i) + seq![(ns, ne)] + rs.subrange(j, rs.len() as int),
    ensures
        canonical(m),
{
    let n = rs.len() as int;
    assert(forall|k: int| 0 <= k < i ==> m[k] == #[trigger] rs[k]);
    assert(m[i] == (ns, ne));
    assert(forall|k: int| j <= k < n ==> m[k - j + i + 1] == #[trigger] rs[k]);
    assert(m.len() == n - (j - i) + 1);
    assert forall|a: int, b: int| 0 <= a < b < m.len() implies #[trigger] m[a].1 < #[trigger] m[b].0 by {
        if b < i {
        } else if b == i {
            if i < j {
                assert(rs[a].1 < rs[i].0);
            }
        } else if a > i {
            assert(rs[a - i - 1 + j].1 < rs[b - i - 1 + j].0);
        } else {
            let bb = b - i - 1 + j;
            assert(m[b] == rs[bb]);
            if bb > j {
                assert(rs[j].1 < rs[bb].0);
            }
            if i < j {
                assert(rs[j - 1].1 < rs[j].0);
                if j - 1 < bb {
                    assert(rs[j - 1].1 < rs[bb].0);
                }
            }
            if a < i {
                assert(rs[a].1 < rs[bb].0);
            }
        }
    }
    assert forall|a: int| 0 <= a < m.len() implies #[trigger] m[a].0 < m[a].1 by {
        if a > i {
            assert(m[a] == rs[a - i - 1 + j]);
        }
    }
}

proof fn lemma_insert_elements(rs: Seq<(u64, u64)>, m: Seq<(u64, u64)>, s: int, e: int, i: int, j: int, ns: u64, ne: u64)
    requires
        insert_frame(rs, s, e, i, j, ns, ne),
        m == rs.subrange(0, i) + seq![(ns, ne)] + rs.subrange(j, rs.len() as int),
    ensures
        elements_of(m) == elements_of(rs).union(span(s, e)),
{
    let n = rs.len() as int;
    assert(forall|k: int| 0 <= k < i ==> m[k] == #[trigger] rs[k]);
    assert(m[i] == (ns, ne));
    assert(forall|k: int| j <= k < n ==> m[k - j + i + 1] == #[trigger] rs[k]);
    assert(m.len() == n - (j - i) + 1);
    assert forall|y: int| #[trigger] covers(m, y) <==> covers(rs, y) || (s <= y < e) by {
        if covers(m, y) {
            let k = choose|k: int| #![trigger m[k]] 0 <= k < m.len() && m[k].0 <= y < m[k].1;
            if k < i {
                assert(rs[k].0 <= y < rs[k].1);
            } else if k > i {
                assert(rs[k - i - 1 + j].0 <= y < rs[k - i - 1 + j].1);
            } else if y < s {
                assert(rs[i].0 <= y < rs[i].1);
            } else if y >= e {
                assert(rs[j - 1].0 <= y < rs[j - 1].1);
            }
        }
        if s <= y < e {
            assert(m[i].0 <= y < m[i].1);
        }
        if covers(rs, y) {
            let k = choose|k: int| #![trigger rs[k]] 0 <= k < rs.len() && rs[k].0 <= y < rs[k].1;
            if k < i {
                assert(m[k].0 <= y < m[k].1);
            } else if k >= j {
                assert(m[k - j + i + 1].0 <= y < m[k - j + i + 1].1);
            } else {
                if i < k {
                    assert(rs[i].1 < rs[k].0);
                }
                if k < j - 1 {
                    assert(rs[k].1 < rs[j - 1].0);
                }
                assert(m[i].0 <= y < m[i].1);
            }
        }
    }
    assert(elements_of(m) =~= elements_of(rs).union(span(s, e)));
}

/// What `remove` knows when it rebuilds the ranges: `i..j` are the ranges
/// that meet `s..e`, and `mid` keeps the parts of them outside it.
pub open spec fn remove_frame(rs: Seq<(u64, u64)>, mid: Seq<(u64, u64)>, s: int, e: int, i: int, j: int) -> bool {
    &&& canonical(rs)
    &&& s < e
    &&& 0 <= i < j <= rs.len()
    &&& forall|k: int| 0 <= k < i ==> #[trigger] rs[k].1 <= s
    &&& rs[i].1 > s
    &&& forall|k: int| i <= k < j ==> #[trigger] rs[k].0 < e
    &&& j < rs.len() ==> rs[j].0 >= e
    &&& mid == (if rs[i].0 < s { seq![(rs[i].0, s as u64)] } else { Seq::empty() }) + (if rs[j
        - 1].1 > e { seq![(e as u64, rs[j - 1].1)] } else { Seq::empty() })
}

proof fn lemma_remove_shape(rs: Seq<(u64, u64)>, m: Seq<(u64, u64)>, mid: Seq<(u64, u64)>, s: int, e: int, i: int, j: int)
    requires
        remove_frame(rs, mid, s, e, i, j),
        m == rs.subrange(0, i) + mid + rs.subrange(j, rs.len() as int),
    ensures
        canonical(m),
{
    let n = rs.len() as int;
    let ml = mid.len() as int;
    assert(forall|k: int| 0 <= k < i ==> m[k] == #[trigger] rs[k]);
    assert(forall|k: int| 0 <= k < ml ==> m[i + k] == #[trigger] mid[k]);
    assert(forall|k: int| j <= k < n ==> m[k - j + i + ml] == #[trigger] rs[k]);
    assert(m.len() == n - (j - i) + ml);
    assert(forall|k: int| 0 <= k < ml ==> #[trigger] mid[k].0 < mid[k].1);
    assert(forall|k: int| 0 <= k < ml ==> rs[i].0 <= #[trigger] mid[k].0);
    assert(forall|k: int| 0 <= k < ml ==> #[trigger] mid[k].1 <= rs[j - 1].1);
    assert forall|a: int, b: int| 0 <= a < b < m.len() implies #[trigger] m[a].1 < #[trigger] m[b].0 by {
        if b < i {
        } else if a >= i + ml {
            assert(rs[a - i - ml + j].1 < rs[b - i - ml + j].0);
        } else if b < i + ml {
        } else if a < i && b >= i + ml {
            assert(rs[a].1 < rs[b - i - ml + j].0);
        } else if a < i {
            assert(rs[a].1 <= s);
        } else {
            let bb = b - i - ml + j;
            if j < n {
                assert(rs[j - 1].1 < rs[j].0);
            }
            if bb > j {
                assert(rs[j].1 < rs[bb].0);
            }
        }
    }
    assert forall|a: int| 0 <= a < m.len() implies #[trigger] m[a].0 < m[a].1 by {
        if a >= i + ml {
            assert(m[a] == rs[a - i - ml + j]);
        } else if a >= i {
            assert(m[a] == mid[a - i]);
        }
    }
}

proof fn lemma_remove_elements(rs: Seq<(u64, u64)>, m: Seq<(u64, u64)>, mid: Seq<(u64, u64)>, s: int, e: int, i: int, j: int)
    requires
        remove_frame(rs, mid, s, e, i, j),
        m == rs.subrange(0, i) + mid + rs.subrange(j, rs.len() as int),
    ensures
        elements_of(m) == elements_of(rs).difference(span(s, e)),
{
    let n = rs.len() as int;
    let ml = mid.len() as int;
    assert(forall|k: int| 0 <= k < i ==> m[k] == #[trigger] rs[k]);
    assert(forall|k: int| 0 <= k < ml ==> m[i + k] == #[trigger] mid[k]);
    assert(forall|k: int| j <= k < n ==> m[k - j + i + ml] == #[trigger] rs[k]);
    assert(m.len() == n - (j - i) + ml);
    assert forall|y: int| #[trigger] covers(m, y) <==> covers(rs, y) && !(s <= y < e) by {
        if covers(m, y) {
            let k = choose|k: int| #![trigger m[k]] 0 <= k < m.len() && m[k].0 <= y < m[k].1;
            if k < i {
                assert(rs[k].0 <= y < rs[k].1);
            } else if k >= i + ml {
                let kk = k - i - ml + j;
                assert(rs[kk].0 <= y < rs[kk].1);
                if kk > j {
                    assert(rs[j].1 < rs[kk].0);
                }
            } else if k == i && rs[i].0 < s {
                assert(rs[i].0 <= y < rs[i].1);
            } else {
                assert(rs[j - 1].0 <= y < rs[j - 1].1);
            }
        }
        if covers(rs, y) && !(s <= y < e) {
            let k = choose|k: int| #![trigger rs[k]] 0 <= k < rs.len() && rs[k].0 <= y < rs[k].1;
            if k < i {
                assert(m[k].0 <= y < m[k].1);
            } else if k >= j {
                assert(m[k - j + i + ml].0 <= y < m[k - j + i + ml].1);
            } else if y < s {
                if k > i {
                    assert(rs[i].1 < rs[k].0);
                }
                assert(m[i].0 <= y < m[i].1);
            } else {
                if k < j - 1 {
                    assert(rs[k].1 < rs[j - 1].0);
                }
                assert(m[i + ml - 1].0 <= y < m[i + ml - 1].1);
            }
        }
    }
    assert(elements_of(m) =~= elements_of(rs).difference(span(s, e)));
}

proof fn lemma_elements_push(rs: Seq<(u64, u64)>, k: int)
    requires
        0 <= k < rs.len(),
    ensures
        elements_of(rs.subrange(0, k + 1)) == elements_of(rs.subrange(0, k)).union(
            span(rs[k].0 as int, rs[k].1 as int),
        ),
{
    let a = rs.subrange(0, k + 1);
    let b = rs.subrange(0, k);
    assert forall|y: int| #[trigger] covers(a, y) <==> covers(b, y) || (rs[k].0 <= y < rs[k].1) by {
        if covers(a, y) {
            let t = choose|t: int| #![trigger a[t]] 0 <= t < a.len() && a[t].0 <= y < a[t].1;
            if t < k {
                assert(b[t].0 <= y < b[t].1);
            }
        }
        if covers(b, y) {
            let t = choose|t: int| #![trigger b[t]] 0 <= t < b.len() && b[t].0 <= y < b[t].1;
            assert(a[t].0 <= y < a[t].1);
        }
        if rs[k].0 <= y < rs[k].1 {
            assert(a[k].0 <= y < a[k].1);
        }
    }
    assert(elements_of(a) =~= elements_of(b).union(span(rs[k].0 as int, rs[k].1 as int)));
}

/// Dropping the lowest range of a canonical list drops exactly its elements.
proof fn lemma_elements_drop_first(rs: Seq<(u64, u64)>)
    requires
        canonical(rs),
        rs.len() > 0,
    ensures
        elements_of(rs.subrange(1, rs.len() as int)) == elements_of(rs).difference(
            span(rs[0].0 as int, rs[0].1 as int),
        ),
        canonical(rs.subrange(1, rs.len() as int)),
{
    let t = rs.subrange(1, rs.len() as int);
    assert forall|y: int| #[trigger] covers(t, y) <==> covers(rs, y) && !(rs[0].0 <= y < rs[0].1) by {
        if covers(t, y) {
            let k = choose|k: int| #![trigger t[k]] 0 <= k < t.len() && t[k].0 <= y < t[k].1;
            assert(rs[k + 1].0 <= y < rs[k + 1].1);
            assert(rs[0].1 < rs[k + 1].0);
        }
        if covers(rs, y) && !(rs[0].0 <= y < rs[0].1) {
            let k = choose|k: int| #![trigger rs[k]] 0 <= k < rs.len() && rs[k].0 <= y < rs[k].1;
            assert(t[k - 1].0 <= y < t[k - 1].1);
        }
    }
    assert(elements_of(t) =~= elements_of(rs).difference(span(rs[0].0 as int, rs[0].1 as int)));
    assert forall|a: int, b: int| 0 <= a < b < t.len() implies #[trigger] t[a].1 < #[trigger] t[b].0 by {
        assert(rs[a + 1].1 < rs[b + 1].0);
    }
    assert forall|a: int| 0 <= a < t.len() implies #[trigger] t[a].0 < t[a].1 by {
        assert(rs[a + 1].0 < rs[a + 1].1);
    }
}

/// Dropping the highest range of a canonical list drops exactly its elements.
proof fn lemma_elements_drop_last(rs: Seq<(u64, u64)>)
    requires
        canonical(rs),
        rs.len() > 0,
    ensures
        elements_of(rs.drop_last()) == elements_of(rs).difference(
            span(rs.last().0 as int, rs.last().1 as int),
        ),
        canonical(rs.drop_last()),
{
    let t = rs.drop_last();
    let n = rs.len() - 1;
    assert forall|y: int| #[trigger] covers(t, y) <==> covers(rs, y) && !(rs[n].0 <= y < rs[n].1) by {
        if covers(t, y) {
            let k = choose|k: int| #![trigger t[k]] 0 <= k < t.len() && t[k].0 <= y < t[k].1;
            assert(rs[k].0 <= y < rs[k].1);
            assert(rs[k].1 < rs[n].0);
        }
        if covers(rs, y) && !(rs[n].0 <= y < rs[n].1) {
            let k = choose|k: int| #![trigger rs[k]] 0 <= k < rs.len() && rs[k].0 <= y < rs[k].1;
            assert(t[k].0 <= y < t[k].1);
        }
    }
    assert(elements_of(t) =~= elements_of(rs).difference(span(rs[n].0 as int, rs[n].1 as int)));
    assert forall|a: int, b: int| 0 <= a < b < t.len() implies #[trigger] t[a].1 < #[trigger] t[b].0 by {
        assert(rs[a].1 < rs[b].0);
    }
    assert forall|a: int| 0 <= a < t.len() implies #[trigger] t[a].0 < t[a].1 by {
        assert(rs[a].0 < rs[a].1);
    }
}

/// The number of elements that the ranges hold, counted range by range.
pub open spec fn total_len(rs: Seq<(u64, u64)>) -> int
    decreases rs.len(),
{
    if rs.len() == 0 {
        0
    } else {
        total_len(rs.drop_last()) + rs.last().1 - rs.last().0
    }
}

/// Some range of `ps` holds `y`.
pub open spec fn pieces_cover(ps: Seq<Range<u64>>, y: int) -> bool {
    exists|t: int| 0 <= t < ps.len() && (#[trigger] ps[t]).start <= y < ps[t].end
}

/// One more range of `rs` taken into account by `replace`: its overlap with
/// `s..e`, if any, is appended to the pieces.
proof fn lemma_replace_step(rs: Seq<(u64, u64)>, s: int, e: int, k: int, before: Seq<Range<u64>>, after: Seq<Range<u64>>)
    requires
        canonical(rs),
        s < e,
        0 <= k < rs.len(),
        forall|y: int| #[trigger] pieces_cover(before, y) <==> (covers(rs.subrange(0, k), y) && s <= y < e),
        rs[k].0 < e && rs[k].1 > s ==> after.len() == before.len() + 1 && after.subrange(0, before.len() as int) == before
            && after.last().start == (if rs[k].0 > s { rs[k].0 as int } else { s }) && after.last().end == (if rs[k].1 < e { rs[k].1 as int } else { e }),
        !(rs[k].0 < e && rs[k].1 > s) ==> after == before,
    ensures
        forall|y: int| #[trigger] pieces_cover(after, y) <==> (covers(rs.subrange(0, k + 1), y) && s <= y < e),
{
    let a = rs.subrange(0, k + 1);
    let b = rs.subrange(0, k);
    assert forall|y: int| #[trigger] pieces_cover(after, y) <==> (covers(a, y) && s <= y < e) by {
        if pieces_cover(after, y) {
            let t = choose|t: int| 0 <= t < after.len() && (#[trigger] after[t]).start <= y < after[t].end;
            if t < before.len() {
                assert(after.subrange(0, before.len() as int)[t] == after[t]);
                assert(pieces_cover(before, y));
                let i = choose|i: int| #![trigger b[i]] 0 <= i < b.len() && b[i].0 <= y < b[i].1;
                assert(a[i] == b[i]);
            } else {
                assert(a[k].0 <= y < a[k].1);
            }
        }
        if covers(a, y) && s <= y < e {
            let i = choose|i: int| #![trigger a[i]] 0 <= i < a.len() && a[i].0 <= y < a[i].1;
            if i < k {
                assert(b[i].0 <= y < b[i].1);
                assert(covers(b, y));
                assert(pieces_cover(before, y));
                let t = choose|t: int| 0 <= t < before.len() && (#[trigger] before[t]).start <= y < before[t].end;
                if after.len() > before.len() {
                    assert(after.subrange(0, before.len() as int)[t] == after[t]);
                }
                assert(after[t] == before[t]);
            } else {
                assert(after[after.len() - 1].start <= y < after[after.len() - 1].end);
            }
        }
    }
}

/// A set of `u64` values stored as maximal half-open ranges.
#[derive(Debug, Clone, PartialEq, Eq)]
pub struct RangeSet {
    ranges: Vec<(u64, u64)>,
}

impl View for RangeSet {
    type V = Set<int>;

    open spec fn view(&self) -> Set<int> {
        elements_of(self.spans())
    }
}

impl RangeSet {
    /// The stored ranges, lowest first.
    pub closed spec fn spans(&self) -> Seq<(u64, u64)> {
        self.ranges@
    }

    pub open spec fn wf(&self) -> bool {
        canonical(self.spans())
    }

    pub fn new() -> (r: Self)
        ensures
            r.wf(),
            r.spans() == Seq::<(u64, u64)>::empty(),
            r@ == Set::<int>::empty(),
    {
        let r = RangeSet { ranges: Vec::new() };
        assert(r@ =~= Set::<int>::empty());
        r
    }

    pub fn contains(&self, x: u64) -> (r: bool)
        requires
            self.wf(),
        ensures
            r == self@.contains(x as int),
    {
        let n = self.ranges.len();
        let mut i: usize = 0;
        while i < n && self.ranges[i].1 <= x
            invariant
                n == self.ranges.len(),
                i <= n,
                forall|k: int| 0 <= k < i ==> #[trigger] self.ranges@[k].1 <= x,
            decreases n - i,
        {
            i += 1;
        }
        let r = i < n && self.ranges[i].0 <= x;
        proof {
            if r {
                assert(covers(self.spans(), x as int)) by {
                    assert(self.spans()[i as int].0 <= x < self.spans()[i as int].1);
                }
            } else {
                assert forall|k: int| 0 <= k < self.spans().len() implies !(
                #[trigger] self.spans()[k].0 <= x && x < self.spans()[k].1) by {
                    if k > i {
                        assert(self.spans()[i as int].1 < self.spans()[k].0);
                    }
                }
            }
        }
        r
    }

    /// Adds `x`; `true` iff it was missing.
    pub fn insert_one(&mut self, x: u64) -> (r: bool)
        requires
            old(self).wf(),
            x < u64::MAX,
        ensures
            final(self).wf(),
            final(self)@ == old(self)@.insert(x as int),
            r == !old(self)@.contains(x as int),
    {
        let ghost before = self@;
        let r = self.insert(x..x + 1);
        proof {
            assert(span(x as int, x + 1) =~= set![x as int]);
            assert(before.union(set![x as int]) =~= before.insert(x as int));
            if before.contains(x as int) {
                assert(set![x as int].subset_of(before));
            }
        }
        r
    }

    /// Drops `x`; `true` iff it was present.
    pub fn remove_one(&mut self, x: u64) -> (r: bool)
        requires
            old(self).wf(),
            x < u64::MAX,
        ensures
            final(self).wf(),
            final(self)@ == old(self)@.remove(x as int),
            r == old(self)@.contains(x as int),
    {
        let ghost before = self@;
        let r = self.remove(x..x + 1);
        proof {
            assert(span(x as int, x + 1) =~= set![x as int]);
            assert(before.difference(set![x as int]) =~= before.remove(x as int));
            if before.contains(x as int) {
                assert(x <= x as int && (x as int) < x + 1);
            }
        }
        r
    }

    /// Whether the last range that starts at or below `x.start` reaches `x.end`;
    /// for a non-empty `x`, whether the set holds all of it.
    pub fn contains_range(&self, x: &Range<u64>) -> (r: bool)
        requires
            self.wf(),
        ensures
            r == (exists|k: int|
                #![trigger self.spans()[k]]
                0 <= k < self.spans().len() && self.spans()[k].0 <= x.start && (k + 1
                    == self.spans().len() || self.spans()[k + 1].0 > x.start) && x.end
                    <= self.spans()[k].1),
            x.start < x.end ==> (r == span(x.start as int, x.end as int).subset_of(self@)),
    {
        let ghost rs = self.spans();
        let n = self.ranges.len();
        let mut i: usize = 0;
        while i < n && self.ranges[i].0 <= x.start
            invariant
                n == self.ranges.len(),
                i <= n,
                forall|k: int| 0 <= k < i ==> #[trigger] self.ranges@[k].0 <= x.start,
            decreases n - i,
        {
            i += 1;
        }
        let r = i > 0 && self.ranges[i - 1].1 >= x.end;
        proof {
            let s = x.start as int;
            let e = x.end as int;
            if r {
                assert(rs[i - 1].0 <= x.start);
            } else {
                assert forall|k: int|
                    0 <= k < rs.len() && #[trigger] rs[k].0 <= x.start && (k + 1 == rs.len() || rs[k
                        + 1].0 > x.start) implies !(x.end <= rs[k].1) by {
                    if k < i - 1 {
                        assert(rs[k + 1].0 <= x.start);
                    }
                }
            }
            if s < e {
                if r {
                    assert forall|y: int| span(s, e).contains(y) implies #[trigger] self@.contains(y) by {
                        assert(rs[i - 1].0 <= y < rs[i - 1].1);
                    }
                } else {
                    let y = if i == 0 || rs[i - 1].1 <= s { s } else { rs[i - 1].1 as int };
                    assert(span(s, e).contains(y));
                    assert forall|k: int| 0 <= k < rs.len() implies !(#[trigger] rs[k].0 <= y && y < rs[k].1) by {
                        if k < i - 1 {
                            assert(rs[k].1 < rs[i - 1].0);
                        }
                    }
                    assert(!self@.contains(y));
                }
            }
        }
        r
    }

    /// Adds every element of `other`.
    pub fn union(&mut self, other: &Self)
        requires
            old(self).wf(),
        ensures
            final(self).wf(),
            final(self)@ == old(self)@.union(other@),
    {
        let ghost os = other.spans();
        let n = other.ranges.len();
        let mut k: usize = 0;
        assert(elements_of(os.subrange(0, 0)) =~= Set::<int>::empty());
        while k < n
            invariant
                n == other.ranges.len(),
                os == other.spans(),
                k <= n,
                self.wf(),
                self@ == old(self)@.union(elements_of(os.subrange(0, k as int))),
            decreases n - k,
        {
            let g = other.ranges[k];
            self.insert(g.0..g.1);
            proof {
                lemma_elements_push(os, k as int);
                assert(self@ =~= old(self)@.union(elements_of(os.subrange(0, k + 1))));
            }
            k += 1;
        }
        assert(os.subrange(0, n as int) =~= os);
    }

    /// Drops every element of `other`.
    pub fn difference(&mut self, other: &Self)
        requires
            old(self).wf(),
        ensures
            final(self).wf(),
            final(self)@ == old(self)@.difference(other@),
    {
        let ghost os = other.spans();
        let n = other.ranges.len();
        let mut k: usize = 0;
        assert(elements_of(os.subrange(0, 0)) =~= Set::<int>::empty());
        assert(old(self)@.difference(Set::<int>::empty()) =~= old(self)@);
        while k < n
            invariant
                n == other.ranges.len(),
                os == other.spans(),
                k <= n,
                self.wf(),
                self@ == old(self)@.difference(elements_of(os.subrange(0, k as int))),
            decreases n - k,
        {
            let g = other.ranges[k];
            self.remove(g.0..g.1);
            proof {
                lemma_elements_push(os, k as int);
                assert(self@ =~= old(self)@.difference(elements_of(os.subrange(0, k + 1))));
            }
            k += 1;
        }
        assert(os.subrange(0, n as int) =~= os);
    }

    pub fn is_empty(&self) -> (r: bool)
        requires
            self.wf(),
        ensures
            r == (self.spans().len() == 0),
            r == (self@ == Set::<int>::empty()),
    {
        proof {
            if self.spans().len() > 0 {
                assert(self@.contains(self.spans()[0].0 as int));
            } else {
                assert(self@ =~= Set::<int>::empty());
            }
        }
        self.ranges.len() == 0
    }

    /// The number of ranges; adjacent runs count as one.
    pub fn len(&self) -> (r: usize)
        ensures
            r == self.spans().len(),
    {
        self.ranges.len()
    }

    /// The ranges, lowest first.
    pub fn iter(&self) -> (r: Vec<Range<u64>>)
        ensures
            r@.len() == self.spans().len(),
            forall|k: int|
                #![trigger r@[k]]
                0 <= k < r@.len() ==> r@[k].start == self.spans()[k].0 && r@[k].end
                    == self.spans()[k].1,
    {
        let mut r: Vec<Range<u64>> = Vec::new();
        let mut k: usize = 0;
        while k < self.ranges.len()
            invariant
                k <= self.ranges.len(),
                r@.len() == k,
                forall|t: int|
                    #![trigger r@[t]]
                    0 <= t < k ==> r@[t].start == self.ranges@[t].0 && r@[t].end
                        == self.ranges@[t].1,
            decreases self.ranges.len() - k,
        {
            let g = self.ranges[k];
            r.push(g.0..g.1);
            k += 1;
        }
        r
    }

    /// The number of elements.
    pub fn elements_len(&self) -> (r: u64)
        requires
            self.wf(),
        ensures
            r == total_len(self.spans()),
    {
        let ghost rs = self.spans();
        let mut sum: u64 = 0;
        let mut k: usize = 0;
        while k < self.ranges.len()
            invariant
                rs == self.ranges@,
                canonical(rs),
                k <= rs.len(),
                sum == total_len(rs.subrange(0, k as int)),
                k > 0 ==> sum <= rs[k - 1].1,
            decreases rs.len() - k,
        {
            let g = self.ranges[k];
            proof {
                if k > 0 {
                    assert(rs[k - 1].1 < rs[k as int].0);
                }
                assert(rs.subrange(0, k + 1).drop_last() =~= rs.subrange(0, k as int));
            }
            sum = sum + (g.1 - g.0);
            k += 1;
        }
        assert(rs.subrange(0, rs.len() as int) =~= rs);
        sum
    }

    /// The smallest element.
    pub fn min(&self) -> (r: Option<u64>)
        requires
            self.wf(),
        ensures
            r is None <==> self@ == Set::<int>::empty(),
            r matches Some(v) ==> self@.contains(v as int) && forall|y: int| #[trigger]
                self@.contains(y) ==> v <= y,
            r matches Some(v) ==> self.spans().len() > 0 && v == self.spans()[0].0,
    {
        if self.is_empty() {
            None
        } else {
            let v = self.ranges[0].0;
            proof {
                let rs = self.spans();
                assert(rs[0].0 <= v < rs[0].1);
                assert forall|y: int| #[trigger] self@.contains(y) implies v <= y by {
                    let k = choose|k: int| #![trigger rs[k]] 0 <= k < rs.len() && rs[k].0 <= y < rs[k].1;
                    if k > 0 {
                        assert(rs[0].1 < rs[k].0);
                    }
                }
            }
            Some(v)
        }
    }

    /// The largest element.
    pub fn max(&self) -> (r: Option<u64>)
        requires
            self.wf(),
        ensures
            r is None <==> self@ == Set::<int>::empty(),
            r matches Some(v) ==> self@.contains(v as int) && forall|y: int| #[trigger]
                self@.contains(y) ==> y <= v,
    {
        if self.is_empty() {
            None
        } else {
            let n = self.ranges.len();
            let v = self.ranges[n - 1].1 - 1;
            proof {
                let rs = self.spans();
                assert(rs[n - 1].0 <= v < rs[n - 1].1);
                assert forall|y: int| #[trigger] self@.contains(y) implies y <= v by {
                    let k = choose|k: int| #![trigger rs[k]] 0 <= k < rs.len() && rs[k].0 <= y < rs[k].1;
                    if k < n - 1 {
                        assert(rs[k].1 < rs[n - 1].0);
                    }
                }
            }
            Some(v)
        }
    }

    /// The lowest range.
    pub fn first(&self) -> (r: Option<Range<u64>>)
        ensures
            r is None <==> self.spans().len() == 0,
            r matches Some(g) ==> g.start == self.spans()[0].0 && g.end == self.spans()[0].1,
    {
        if self.ranges.len() == 0 {
            None
        } else {
            let g = self.ranges[0];
            Some(g.0..g.1)
        }
    }

    /// The highest range.
    pub fn last(&self) -> (r: Option<Range<u64>>)
        ensures
            r is None <==> self.spans().len() == 0,
            r matches Some(g) ==> g.start == self.spans().last().0 && g.end
                == self.spans().last().1,
    {
        let n = self.ranges.len();
        if n == 0 {
            None
        } else {
            let g = self.ranges[n - 1];
            Some(g.0..g.1)
        }
    }

    /// Takes out the lowest range.
    pub fn pop_front(&mut self) -> (r: Option<Range<u64>>)
        requires
            old(self).wf(),
        ensures
            final(self).wf(),
            r is None <==> old(self).spans().len() == 0,
            r is None ==> final(self).spans() == old(self).spans(),
            r matches Some(g) ==> g.start == old(self).spans()[0].0 && g.end == old(self).spans()[0].1 && final(self).spans() == old(self).spans().subrange(
                1,
                old(self).spans().len() as int,
            ) && final(self)@ == old(self)@.difference(span(g.start as int, g.end as int)),
    {
        if self.ranges.len() == 0 {
            None
        } else {
            proof {
                lemma_elements_drop_first(self.spans());
            }
            let g = self.ranges.remove(0);
            proof {
                assert(self.ranges@ =~= old(self).spans().subrange(1, old(self).spans().len() as int));
            }
            Some(g.0..g.1)
        }
    }

    /// Takes out the highest range.
    pub fn pop_back(&mut self) -> (r: Option<Range<u64>>)
        requires
            old(self).wf(),
        ensures
            final(self).wf(),
            r is None <==> old(self).spans().len() == 0,
            r is None ==> final(self).spans() == old(self).spans(),
            r matches Some(g) ==> g.start == old(self).spans().last().0 && g.end == old(self).spans().last().1 && final(self).spans() == old(self).spans().drop_last()
                && final(self)@ == old(self)@.difference(span(g.start as int, g.end as int)),
    {
        match self.ranges.pop() {
            None => None,
            Some(g) => {
                proof {
                    lemma_elements_drop_last(old(self).spans());
                }
                Some(g.0..g.1)
            },
        }
    }

    /// Adds the elements of `x` and returns the parts of `x` that were
    /// already present, lowest first.
    pub fn replace(&mut self, x: Range<u64>) -> (r: Vec<Range<u64>>)
        requires
            old(self).wf(),
        ensures
            final(self).wf(),
            final(self)@ == old(self)@.union(span(x.start as int, x.end as int)),
            forall|k: int| 0 <= k < r@.len() ==> (#[trigger] r@[k]).start < r@[k].end,
            forall|k: int, j: int| 0 <= k < j < r@.len() ==> (#[trigger] r@[k]).end < (#[trigger] r@[j]).start,
            forall|y: int| #[trigger] pieces_cover(r@, y) <==> (old(self)@.contains(y) && x.start <= y < x.end),
    {
        let s = x.start;
        let e = x.end;
        let ghost rs = self.spans();
        let mut parts: Vec<Range<u64>> = Vec::new();
        if s >= e {
            assert(self@.union(span(s as int, e as int)) =~= self@);
            return parts;
        }
        let mut k: usize = 0;
        while k < self.ranges.len()
            invariant
                s < e,
                rs == self.ranges@,
                canonical(rs),
                k <= rs.len(),
                forall|t: int| 0 <= t < parts@.len() ==> (#[trigger] parts@[t]).start < parts@[t].end,
                forall|t: int, j: int|
                    0 <= t < j < parts@.len() ==> (#[trigger] parts@[t]).end < (#[trigger] parts@[j]).start,
                parts@.len() > 0 ==> exists|i: int| 0 <= i < k && parts@.last().end <= rs[i].1,
                forall|y: int| #[trigger] pieces_cover(parts@, y) <==> (covers(rs.subrange(0, k as int), y) && s <= y < e),
            decreases rs.len() - k,
        {
            let g = self.ranges[k];
            let ghost before = parts@;
            proof {
                assert(g == rs[k as int]);
                assert(rs[k as int].0 < rs[k as int].1);
            }
            if g.0 < e && g.1 > s {
                let lo = if g.0 > s { g.0 } else { s };
                let hi = if g.1 < e { g.1 } else { e };
                proof {
                    if before.len() > 0 {
                        let i = choose|i: int| 0 <= i < k && before.last().end <= rs[i].1;
                        assert(rs[i].1 < rs[k as int].0);
                    }
                }
                parts.push(lo..hi);
                proof {
                    assert(parts@[parts@.len() - 1].start == lo && parts@[parts@.len() - 1].end == hi);
                    assert forall|t: int| 0 <= t < before.len() implies parts@[t] == before[t] by {}
                    assert forall|t: int, j: int|
                        0 <= t < j < parts@.len() implies (#[trigger] parts@[t]).end < (#[trigger] parts@[j]).start by {
                        if j < before.len() {
                            assert(parts@[t] == before[t] && parts@[j] == before[j]);
                        } else {
                            assert(parts@[t] == before[t]);
                            if t < before.len() - 1 {
                                assert(before[t].end < before[before.len() - 1].start);
                            }
                        }
                    }
                    assert(parts@.last().end <= rs[k as int].1);
                    assert(parts@.subrange(0, before.len() as int) =~= before);
                }
            }
            proof {
                lemma_replace_step(rs, s as int, e as int, k as int, before, parts@);
                if parts@.len() > 0 && parts@.len() == before.len() {
                    let i = choose|i: int| 0 <= i < k && before.last().end <= rs[i].1;
                    assert(parts@.last().end <= rs[i].1);
                }
            }
            k += 1;
        }
        proof {
            assert(rs.subrange(0, rs.len() as int) =~= rs);
            assert forall|y: int| #[trigger] pieces_cover(parts@, y) <==> (old(self)@.contains(y) && s <= y < e) by {
                assert(old(self)@.contains(y) == covers(rs, y));
            }
        }
        self.insert(x);
        parts
    }

    /// Every element, in increasing order.
    pub fn elements(&self) -> (r: Vec<u64>)
        requires
            self.wf(),
        ensures
            forall|i: int, j: int| 0 <= i < j < r@.len() ==> #[trigger] r@[i] < #[trigger] r@[j],
            forall|y: int| self@.contains(y) <==> exists|i: int| 0 <= i < r@.len() && #[trigger] r@[i] == y,
    {
        let ghost rs = self.spans();
        let mut out: Vec<u64> = Vec::new();
        let mut k: usize = 0;
        while k < self.ranges.len()
            invariant
                rs == self.ranges@,
                canonical(rs),
                k <= rs.len(),
                forall|i: int, j: int| 0 <= i < j < out@.len() ==> #[trigger] out@[i] < #[trigger] out@[j],
                out@.len() > 0 ==> k > 0 && out@.last() < rs[k - 1].1,
                forall|y: int| covers(rs.subrange(0, k as int), y) <==> exists|i: int| 0 <= i < out@.len() && #[trigger] out@[i] == y,
            decreases rs.len() - k,
        {
            let g = self.ranges[k];
            let ghost mark = out@;
            proof {
                if k > 0 {
                    assert(rs[k - 1].1 < rs[k as int].0);
                }
            }
            let mut v = g.0;
            while v < g.1
                invariant
                    rs == self.ranges@,
                    canonical(rs),
                    k < rs.len(),
                    g == rs[k as int],
                    g.0 <= v <= g.1,
                    out@.len() == mark.len() + (v - g.0),
                    forall|i: int| 0 <= i < mark.len() ==> #[trigger] out@[i] == mark[i],
                    forall|i: int| mark.len() <= i < out@.len() ==> #[trigger] out@[i] == g.0 + (i - mark.len()),
                    forall|i: int, j: int| 0 <= i < j < out@.len() ==> #[trigger] out@[i] < #[trigger] out@[j],
                    mark.len() > 0 ==> mark.last() < g.0,
                decreases g.1 - v,
            {
                let ghost prev = out@;
                out.push(v);
                proof {
                    assert forall|i: int, j: int| 0 <= i < j < out@.len() implies #[trigger] out@[i] < #[trigger] out@[j] by {
                        if j == out@.len() - 1 {
                            if i >= mark.len() {
                                assert(out@[i] == prev[i]);
                            } else {
                                assert(out@[i] == mark[i]);
                                if i < mark.len() - 1 {
                                    assert(mark[i] < mark[mark.len() - 1]) by {
                                        assert(prev[i] < prev[mark.len() - 1]);
                                    }
                                }
                            }
                        } else {
                            assert(out@[i] == prev[i] && out@[j] == prev[j]);
                        }
                    }
                }
                v += 1;
            }
            proof {
                let a = rs.subrange(0, k + 1);
                let b = rs.subrange(0, k as int);
                assert forall|y: int| covers(a, y) <==> exists|i: int| 0 <= i < out@.len() && #[trigger] out@[i] == y by {
                    if covers(a, y) {
                        let i = choose|i: int| #![trigger a[i]] 0 <= i < a.len() && a[i].0 <= y < a[i].1;
                        if i < k {
                            assert(b[i].0 <= y < b[i].1);
                            assert(covers(b, y));
                            let t = choose|t: int| 0 <= t < mark.len() && #[trigger] mark[t] == y;
                            assert(out@[t] == y);
                        } else {
                            assert(out@[mark.len() + (y - g.0)] == y);
                        }
                    }
                    if exists|i: int| 0 <= i < out@.len() && #[trigger] out@[i] == y {
                        let t = choose|t: int| 0 <= t < out@.len() && #[trigger] out@[t] == y;
                        if t < mark.len() {
                            assert(mark[t] == y);
                            assert(covers(b, y));
                            let i = choose|i: int| #![trigger b[i]] 0 <= i < b.len() && b[i].0 <= y < b[i].1;
                            assert(a[i] == b[i]);
                        } else {
                            assert(a[k as int].0 <= y < a[k as int].1);
                        }
                    }
                }
            }
            k += 1;
        }
        assert(rs.subrange(0, rs.len() as int) =~= rs);
        out
    }

    /// Adds the elements of `x`; `true` iff some of them were missing.
    pub fn insert(&mut self, x: Range<u64>) -> (r: bool)
        requires
            old(self).wf(),
        ensures
            final(self).wf(),
            final(self)@ == old(self)@.union(span(x.start as int, x.end as int)),
            r == (x.start < x.end && !span(x.start as int, x.end as int).subset_of(old(self)@)),
    {
        let s = x.start;
        let e = x.end;
        if s >= e {
            assert(self@.union(span(s as int, e as int)) =~= self@);
            return false;
        }
        let ghost rs = self.spans();
        let n = self.ranges.len();
        let i = first_reaching(&self.ranges, s, true);
        if i < n && self.ranges[i].0 <= s && e <= self.ranges[i].1 {
            proof {
                assert forall|y: int| span(s as int, e as int).contains(y) implies #[trigger] self@.contains(y) by {
                    assert(rs[i as int].0 <= y < rs[i as int].1);
                }
                assert(self@.union(span(s as int, e as int)) =~= self@);
            }
            return false;
        }
        proof {
            lemma_not_subset(rs, s as int, e as int, i as int);
        }
        let mut j: usize = i;
        while j < n && self.ranges[j].0 <= e
            invariant
                n == self.ranges.len(),
                i <= j <= n,
                forall|k: int| i <= k < j ==> #[trigger] self.ranges@[k].0 <= e,
            decreases n - j,
        {
            j += 1;
        }
        let new_s = if i < j && self.ranges[i].0 < s { self.ranges[i].0 } else { s };
        let new_e = if i < j && self.ranges[j - 1].1 > e { self.ranges[j - 1].1 } else { e };
        let mut mid: Vec<(u64, u64)> = Vec::new();
        mid.push((new_s, new_e));
        let out = splice(&self.ranges, i, j, &mid);
        proof {
            assert(mid@ =~= seq![(new_s, new_e)]);
            lemma_insert_shape(rs, out@, s as int, e as int, i as int, j as int, new_s, new_e);
            lemma_insert_elements(rs, out@, s as int, e as int, i as int, j as int, new_s, new_e);
        }
        self.ranges = out;
        assert(self@ =~= old(self)@.union(span(s as int, e as int)));
        true
    }

    /// Drops the elements of `x`; `true` iff some of them were present.
    pub fn remove(&mut self, x: Range<u64>) -> (r: bool)
        requires
            old(self).wf(),
        ensures
            final(self).wf(),
            final(self)@ == old(self)@.difference(span(x.start as int, x.end as int)),
            r == (exists|y: int| x.start <= y < x.end && #[trigger] old(self)@.contains(y)),
    {
        let s = x.start;
        let e = x.end;
        let ghost rs = self.spans();
        if s >= e {
            assert(self@.difference(span(s as int, e as int)) =~= self@);
            return false;
        }
        let n = self.ranges.len();
        let i = first_reaching(&self.ranges, s, false);
        let mut j: usize = i;
        while j < n && self.ranges[j].0 < e
            invariant
                n == self.ranges.len(),
                i <= j <= n,
                forall|k: int| i <= k < j ==> #[trigger] self.ranges@[k].0 < e,
            decreases n - j,
        {
            j += 1;
        }
        if i == j {
            proof {
                assert forall|y: int| s <= y < e implies !#[trigger] self@.contains(y) by {
                    assert forall|k: int| 0 <= k < rs.len() implies !(#[trigger] rs[k].0 <= y && y < rs[k].1) by {
                        if k > j {
                            assert(rs[j as int].1 < rs[k].0);
                        }
                    }
                }
                assert(self@.difference(span(s as int, e as int)) =~= self@);
            }
            return false;
        }
        proof {
            let w = if rs[i as int].0 < s { s as int } else { rs[i as int].0 as int };
            assert(rs[i as int].0 <= w < rs[i as int].1);
            assert(self@.contains(w));
        }
        let lo = self.ranges[i];
        let hi = self.ranges[j - 1];
        let mut mid: Vec<(u64, u64)> = Vec::new();
        if lo.0 < s {
            mid.push((lo.0, s));
        }
        if hi.1 > e {
            mid.push((e, hi.1));
        }
        let out = splice(&self.ranges, i, j, &mid);
        proof {
            assert(mid@ =~= (if rs[i as int].0 < s { seq![(rs[i as int].0, s)] } else { Seq::empty() }) + (
            if rs[j - 1].1 > e { seq![(e, rs[j - 1].1)] } else { Seq::empty() }));
            lemma_remove_shape(rs, out@, mid@, s as int, e as int, i as int, j as int);
            lemma_remove_elements(rs, out@, mid@, s as int, e as int, i as int, j as int);
        }
        self.ranges = out;
        assert(self@ =~= old(self)@.difference(span(s as int, e as int)));
        true
    }
}

} // verus!
