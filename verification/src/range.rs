use vstd::prelude::*;

verus! {

/// A half-open span `[start, end)` of byte offsets.
#[derive(Debug, Clone, Copy, PartialEq, Eq, Structural)]
pub struct Range {
    pub start: usize,
    pub end: usize,
}

impl Range {
    /// The number of offsets the span covers.
    pub open spec fn size(self) -> int {
        self.end - self.start
    }

    /// Whether offset `p` lies inside the span.
    pub open spec fn covers(self, p: int) -> bool {
        self.start <= p < self.end
    }

    /// The span as a set of offsets.
    pub open spec fn span(self) -> Set<int> {
        Set::new(|p: int| self.covers(p))
    }

    pub fn new(start: usize, end: usize) -> (r: Range)
        ensures
            r == (Range { start, end }),
    {
        Range { start, end }
    }

    pub fn len(&self) -> (n: usize)
        requires
            self.start <= self.end,
        ensures
            n == self.end - self.start,
    {
        self.end - self.start
    }

    pub fn is_empty(&self) -> (b: bool)
        ensures
            b == (self.start == self.end),
    {
        self.start == self.end
    }

    pub fn is_extended_by(&self, other: &Range) -> (b: bool)
        ensures
            b == (self.end == other.start),
    {
        self.end == other.start
    }

    pub fn extends(&self, other: &Range) -> (b: bool)
        ensures
            b == (other.end == self.start),
    {
        other.is_extended_by(self)
    }

    pub fn is_contiguous(&self, other: &Range) -> (b: bool)
        ensures
            b == touching(*self, *other),
    {
        self.is_extended_by(other) || self.extends(other)
    }

    pub fn extend(&mut self, other: &Range)
        ensures
            *final(self) == joined(*old(self), *other),
    {
        if self.is_extended_by(other) {
            self.end = other.end;
        } else if self.extends(other) {
            self.start = other.start;
        }
    }

    pub fn maybe_extend(&mut self, other: Option<&Range>) -> (b: bool)
        ensures
            b == (other is Some && touching(*old(self), *other.unwrap())),
            *final(self) == (if b {
                joined(*old(self), *other.unwrap())
            } else {
                *old(self)
            }),
    {
        match other {
            Some(r) => {
                if self.is_contiguous(r) {
                    self.extend(r);
                    true
                } else {
                    false
                }
            },
            None => false,
        }
    }
}

/// `a` ends where `b` starts, or `b` ends where `a` starts.
pub open spec fn touching(a: Range, b: Range) -> bool {
    a.end == b.start || b.end == a.start
}

/// What `extend` makes of `a` with `b`: the two spans glued where they touch.
pub open spec fn joined(a: Range, b: Range) -> Range {
    if a.end == b.start {
        Range { start: a.start, end: b.end }
    } else if b.end == a.start {
        Range { start: b.start, end: a.end }
    } else {
        a
    }
}

impl Default for Range {
    /// The empty span at offset 0.
    fn default() -> (r: Range)
        ensures
            r == (Range { start: 0, end: 0 }),
    {
        Range { start: 0, end: 0 }
    }
}

impl Default for Ranges {
    /// No free spans, in an empty buffer.
    fn default() -> (r: Ranges)
        ensures
            r@ == Seq::<Range>::empty(),
            r.top() == 0,
    {
        Ranges::new()
    }
}

/// Two spans share no offset.
pub open spec fn apart(a: Range, b: Range) -> bool {
    a.start >= a.end || b.start >= b.end || a.end <= b.start || b.end <= a.start
}


/// The free spans of a buffer, kept in the order in which `free` placed
/// them, and the offset at which the buffer ends.
#[derive(Debug)]
pub struct Ranges {
    ranges: Vec<Range>,
    highest: usize,
}

/// Every span of `rs` runs forwards.
pub open spec fn forward(rs: Seq<Range>) -> bool {
    forall|i: int| 0 <= i < rs.len() ==> #[trigger] rs[i].start <= rs[i].end
}

/// The offsets covered by some span of `rs`.
pub open spec fn covered(rs: Seq<Range>) -> Set<int> {
    Set::new(|p: int| exists|i: int| 0 <= i < rs.len() && #[trigger] rs[i].covers(p))
}

/// No two spans of `rs` share an offset.
pub open spec fn pairwise_apart(rs: Seq<Range>) -> bool {
    forall|i: int, j: int| 0 <= i < rs.len() && 0 <= j < rs.len() && i != j ==> apart(#[trigger] rs[i], #[trigger] rs[j])
}

/// The spans are non-empty, in increasing order, and separated by gaps:
/// no two of them touch or overlap.
pub open spec fn coalesced(rs: Seq<Range>) -> bool {
    &&& forall|i: int| 0 <= i < rs.len() ==> #[trigger] rs[i].start < rs[i].end
    &&& forall|i: int, j: int| 0 <= i < j < rs.len() ==> #[trigger] rs[i].end < #[trigger] rs[j].start
}

/// Span `i` of `rs` can hold `length` offsets.
pub open spec fn fits(rs: Seq<Range>, length: usize, i: int) -> bool {
    0 <= i < rs.len() && rs[i].size() >= length
}

/// Some span of `rs` can hold `length` offsets.
pub open spec fn has_fit(rs: Seq<Range>, length: usize) -> bool {
    exists|i: int| fits(rs, length, i)
}

/// Span `i` is the first of the smallest spans that can hold `length` offsets.
pub open spec fn is_best_fit(rs: Seq<Range>, length: usize, i: int) -> bool {
    &&& fits(rs, length, i)
    &&& forall|j: int| fits(rs, length, j) ==> rs[j].size() >= rs[i].size()
    &&& forall|j: int| 0 <= j < i && fits(rs, length, j) ==> rs[j].size() > rs[i].size()
}

/// The index of the best fit for `length` (meaningful when `has_fit`).
pub open spec fn best_fit(rs: Seq<Range>, length: usize) -> int {
    choose|i: int| is_best_fit(rs, length, i)
}

/// The spans after `length` offsets were taken from the front of span `i`;
/// a span that became empty is dropped.
pub open spec fn taken(rs: Seq<Range>, i: int, length: usize) -> Seq<Range> {
    if rs[i].start + length == rs[i].end {
        rs.remove(i)
    } else {
        rs.update(i, Range { start: (rs[i].start + length) as usize, end: rs[i].end })
    }
}

/// `n` is the index of the first span that starts after `s`, or the length
/// of `rs` when there is none.
pub open spec fn is_first_after(rs: Seq<Range>, s: usize, n: int) -> bool {
    &&& 0 <= n <= rs.len()
    &&& forall|j: int| 0 <= j < n ==> #[trigger] rs[j].start <= s
    &&& n < rs.len() ==> rs[n].start > s
}

pub open spec fn first_after(rs: Seq<Range>, s: usize) -> int {
    choose|n: int| is_first_after(rs, s, n)
}

/// The spans after `t` was handed back: `t` is glued to the span before the
/// first span that starts after it and to that first span, where they touch;
/// else it is inserted before that first span.
pub open spec fn freed(rs: Seq<Range>, t: Range) -> Seq<Range> {
    if rs.len() == 0 {
        seq![t]
    } else {
        let n = first_after(rs, t.start);
        let prev_merge = n > 0 && touching(t, rs[n - 1]);
        let t1 = if prev_merge { joined(t, rs[n - 1]) } else { t };
        let next_merge = n < rs.len() && touching(t1, rs[n]);
        let t2 = if next_merge { joined(t1, rs[n]) } else { t1 };
        if prev_merge && next_merge {
            rs.update(n - 1, t2).remove(n)
        } else if prev_merge {
            rs.update(n - 1, t1)
        } else if next_merge {
            rs.update(n, t2)
        } else {
            rs.insert(n, t)
        }
    }
}

impl View for Ranges {
    type V = Seq<Range>;

    closed spec fn view(&self) -> Seq<Range> {
        self.ranges@
    }
}

impl Ranges {
    /// The offset at which the buffer that the spans describe ends.
    pub closed spec fn top(&self) -> usize {
        self.highest
    }

    pub open spec fn wf(&self) -> bool {
        forward(self@)
    }

    pub fn new() -> (r: Ranges)
        ensures
            r@ == Seq::<Range>::empty(),
            r.top() == 0,
            r.wf(),
    {
        Ranges { ranges: Vec::new(), highest: 0 }
    }

    pub fn get(&self, index: usize) -> (r: Option<&Range>)
        ensures
            index < self@.len() ==> r == Some(&self@[index as int]),
            index >= self@.len() ==> r is None,
    {
        if index < self.ranges.len() {
            Some(&self.ranges[index])
        } else {
            None
        }
    }

    pub fn len(&self) -> (n: usize)
        ensures
            n == self@.len(),
    {
        self.ranges.len()
    }

    pub fn is_empty(&self) -> (b: bool)
        ensures
            b == (self@.len() == 0),
    {
        self.ranges.is_empty()
    }

    pub fn highest(&self) -> (h: usize)
        ensures
            h == self.top(),
    {
        self.highest
    }

    /// The index of the first of the smallest spans that can hold `length`
    /// offsets, if any span can.
    pub fn best_fit_index(&self, length: usize) -> (r: Option<usize>)
        requires
            self.wf(),
        ensures
            r is Some <==> has_fit(self@, length),
            r is Some ==> is_best_fit(self@, length, r->0 as int) && r->0 == best_fit(self@, length),
    {
        let mut least_larger_index: Option<usize> = None;
        let mut least_larger_size: usize = 0;
        let mut i: usize = 0;
        while i < self.ranges.len()
            invariant
                self.wf(),
                i <= self@.len(),
                match least_larger_index {
                    Some(k) => {
                        &&& k < i
                        &&& fits(self@, length, k as int)
                        &&& least_larger_size == self@[k as int].size()
                        &&& forall|j: int| 0 <= j < i && fits(self@, length, j) ==> self@[j].size() >= self@[k as int].size()
                        &&& forall|j: int| 0 <= j < k && fits(self@, length, j) ==> self@[j].size() > self@[k as int].size()
                    },
                    None => forall|j: int| 0 <= j < i ==> !fits(self@, length, j),
                },
            decreases self@.len() - i,
        {
            let range = self.ranges[i];
            proof { assert(self@[i as int] == range); }
            if range.len() >= length && (least_larger_index.is_none() || range.len() < least_larger_size) {
                least_larger_index = Some(i);
                least_larger_size = range.len();
            }
            i = i + 1;
        }
        match least_larger_index {
            Some(index) => {
                proof {
                    lemma_best_fit_unique(self@, length, index as int);
                }
            },
            None => {},
        }
        least_larger_index
    }

    /// Hands out `length` offsets: taken from the front of the first of the
    /// smallest free spans that can hold them (`Ok`), or else from the end of
    /// the buffer, which grows by `length` (`Err`).
    pub fn find(&mut self, length: usize) -> (r: Result<Range, Range>)
        requires
            old(self).wf(),
            has_fit(old(self)@, length) || old(self).top() + length <= usize::MAX,
        ensures
            final(self).wf(),
            r is Ok <==> has_fit(old(self)@, length),
            r is Ok ==> {
                let i = best_fit(old(self)@, length);
                &&& is_best_fit(old(self)@, length, i)
                &&& r->Ok_0 == (Range { start: old(self)@[i].start, end: (old(self)@[i].start + length) as usize })
                &&& final(self)@ == taken(old(self)@, i, length)
                &&& final(self).top() == old(self).top()
            },
            // what was handed out was free, and only it stops being free
            r is Ok ==> r->Ok_0.span().subset_of(covered(old(self)@)),
            r is Ok && pairwise_apart(old(self)@) ==> {
                &&& covered(final(self)@) == covered(old(self)@).difference(r->Ok_0.span())
                &&& pairwise_apart(final(self)@)
            },
            coalesced(old(self)@) ==> coalesced(final(self)@),
            below(old(self)@, old(self).top()) ==> below(final(self)@, final(self).top()),
            r is Err ==> {
                &&& r->Err_0 == (Range { start: old(self).top(), end: (old(self).top() + length) as usize })
                &&& final(self)@ == old(self)@
                &&& final(self).top() == old(self).top() + length
            },
    {
        let least_larger_index = self.best_fit_index(length);
        match least_larger_index {
            Some(index) => {
                proof {
                    lemma_best_fit_unique(self@, length, index as int);
                    lemma_taken(self@, index as int, length);
                }
                let ghost before = self@;
                let range = self.ranges[index];
                let ret = Ok(Range { start: range.start, end: range.start + length });
                let shrunk = Range { start: range.start + length, end: range.end };
                self.ranges.set(index, shrunk);
                if shrunk.is_empty() {
                    self.ranges.remove(index);
                }
                proof {
                    assert(self@ =~= taken(before, index as int, length));
                }
                ret
            },
            None => {
                let range = Range::new(self.highest, self.highest + length);
                self.highest = range.end;
                Err(range)
            },
        }
    }
}


impl Ranges {
    /// Hands `to_free` back: it is glued to its neighbours where it touches
    /// them, else recorded as a span of its own.
    pub fn free(&mut self, to_free: Range)
        ensures
            final(self)@ == freed(old(self)@, to_free),
            final(self).top() == old(self).top(),
            old(self).wf() && to_free.start <= to_free.end ==> {
                &&& final(self).wf()
                // exactly the offsets of `to_free` become free
                &&& covered(final(self)@) == covered(old(self)@).union(to_free.span())
                &&& pairwise_apart(old(self)@) && apart_from_all(old(self)@, to_free) ==> pairwise_apart(final(self)@)
                &&& below(old(self)@, old(self).top()) && to_free.end <= old(self).top()
                    ==> below(final(self)@, final(self).top())
            },
            coalesced(old(self)@) && to_free.start < to_free.end && apart_from_all(old(self)@, to_free)
                ==> coalesced(final(self)@),
    {
        proof {
            if self.wf() && to_free.start <= to_free.end {
                lemma_freed_covered(self@, to_free);
                if pairwise_apart(self@) && apart_from_all(self@, to_free) {
                    lemma_freed_apart(self@, to_free);
                }
                if below(self@, self.top()) && to_free.end <= self.top() {
                    lemma_freed_below(self@, to_free, self.top());
                }
            }
            if coalesced(self@) && to_free.start < to_free.end && apart_from_all(self@, to_free) {
                lemma_freed_coalesced(self@, to_free);
            }
        }
        if self.ranges.is_empty() {
            self.ranges.push(to_free);
            proof {
                assert(self@ =~= freed(old(self)@, to_free));
            }
            return;
        }
        let mut to_free = to_free;
        let ghost t = to_free;
        let mut n: usize = 0;
        while n < self.ranges.len() && !(self.ranges[n].start > to_free.start)
            invariant
                n <= self@.len(),
                forall|j: int| 0 <= j < n ==> #[trigger] self@[j].start <= to_free.start,
            decreases self@.len() - n,
        {
            n = n + 1;
        }
        proof {
            lemma_first_after_unique(self@, t.start, n as int);
        }
        let next_idx: Option<usize> = if n < self.ranges.len() { Some(n) } else { None };
        let next = match next_idx {
            Some(idx) => Some(&self.ranges[idx]),
            None => None,
        };
        let prev_idx: Option<usize> = match next_idx {
            None => Some(self.ranges.len() - 1),
            Some(0) => None,
            Some(m) => Some(m - 1),
        };
        let prev = match prev_idx {
            Some(idx) => Some(&self.ranges[idx]),
            None => None,
        };
        let operation = if to_free.maybe_extend(prev) {
            if to_free.maybe_extend(next) {
                FreeOp::Shorten(prev_idx.unwrap_or_default())
            } else {
                FreeOp::Overwrite(prev_idx.unwrap_or_default())
            }
        } else if to_free.maybe_extend(next) {
            FreeOp::Overwrite(next_idx.unwrap_or_default())
        } else {
            match next_idx {
                Some(idx) => FreeOp::Extend(idx),
                None => FreeOp::Push,
            }
        };
        match operation {
            FreeOp::Overwrite(idx) => {
                self.ranges.set(idx, to_free);
            },
            FreeOp::Shorten(idx) => {
                self.ranges.set(idx, to_free);
                self.ranges.remove(idx + 1);
            },
            FreeOp::Extend(idx) => {
                self.ranges.insert(idx, to_free);
            },
            FreeOp::Push => {
                self.ranges.push(to_free);
            },
        }
        proof {
            assert(self@ =~= freed(old(self)@, t));
        }
    }
}

/// How `free` records a span.
enum FreeOp {
    /// Replace the span at the index.
    Overwrite(usize),
    /// Replace the span at the index and drop the one after it.
    Shorten(usize),
    /// Insert before the index.
    Extend(usize),
    /// Append.
    Push,
}


/// There is always a first span that starts after `s` (or the end).
pub proof fn lemma_first_after_exists(rs: Seq<Range>, s: usize)
    ensures
        is_first_after(rs, s, first_after(rs, s)),
    decreases rs.len(),
{
    if rs.len() == 0 {
        assert(is_first_after(rs, s, 0));
    } else {
        let init = rs.drop_last();
        lemma_first_after_exists(init, s);
        let m = first_after(init, s);
        assert forall|j: int| 0 <= j < m implies #[trigger] rs[j].start <= s by {
            assert(init[j] == rs[j]);
        }
        if m < init.len() {
            assert(init[m] == rs[m]);
            assert(is_first_after(rs, s, m));
        } else if rs[rs.len() - 1].start > s {
            assert(is_first_after(rs, s, rs.len() - 1));
        } else {
            assert(is_first_after(rs, s, rs.len() as int));
        }
    }
}

/// The first span that starts after `s` has one index only.
pub proof fn lemma_first_after_unique(rs: Seq<Range>, s: usize, n: int)
    requires
        is_first_after(rs, s, n),
    ensures
        first_after(rs, s) == n,
{
    let k = first_after(rs, s);
    assert(is_first_after(rs, s, k));
    if k < n {
        assert(rs[k].start <= s);
    } else if n < k {
        assert(rs[n].start <= s);
    }
}


/// Every span of `rs` ends at or before `top`.
pub open spec fn below(rs: Seq<Range>, top: usize) -> bool {
    forall|i: int| 0 <= i < rs.len() ==> #[trigger] rs[i].end <= top
}

/// `t` shares no offset with any span of `rs`.
pub open spec fn apart_from_all(rs: Seq<Range>, t: Range) -> bool {
    forall|i: int| 0 <= i < rs.len() ==> apart(t, #[trigger] rs[i])
}

/// Two forward spans are apart exactly when no offset lies in both.
pub proof fn lemma_apart_iff_disjoint(a: Range, b: Range)
    requires
        a.start <= a.end,
        b.start <= b.end,
    ensures
        apart(a, b) <==> (forall|p: int| !(#[trigger] a.covers(p) && b.covers(p))),
{
    if !apart(a, b) {
        let p: int = if a.start <= b.start { b.start as int } else { a.start as int };
        assert(a.covers(p) && b.covers(p));
    }
}

/// Gluing two touching forward spans covers exactly what the two covered.
pub proof fn lemma_joined_covers(a: Range, b: Range)
    requires
        a.start <= a.end,
        b.start <= b.end,
        touching(a, b),
    ensures
        joined(a, b).start <= joined(a, b).end,
        forall|p: int| #[trigger] joined(a, b).covers(p) <==> (a.covers(p) || b.covers(p)),
{
}

/// Handing a span back adds exactly its offsets to the free offsets.
pub proof fn lemma_freed_covered(rs: Seq<Range>, t: Range)
    requires
        forward(rs),
        t.start <= t.end,
    ensures
        forward(freed(rs, t)),
        covered(freed(rs, t)) == covered(rs).union(t.span()),
{
    let f = freed(rs, t);
    if rs.len() == 0 {
        assert(covered(f) =~= covered(rs).union(t.span())) by {
            assert forall|p: int| covered(rs).union(t.span()).contains(p) implies #[trigger] covered(f).contains(p) by {
                assert(f[0].covers(p));
            }
        }
        return;
    }
    lemma_first_after_exists(rs, t.start);
    let n = first_after(rs, t.start);
    let prev_merge = n > 0 && touching(t, rs[n - 1]);
    let t1 = if prev_merge { joined(t, rs[n - 1]) } else { t };
    let next_merge = n < rs.len() && touching(t1, rs[n]);
    let t2 = if next_merge { joined(t1, rs[n]) } else { t1 };
    if prev_merge {
        lemma_joined_covers(t, rs[n - 1]);
    }
    if next_merge {
        lemma_joined_covers(t1, rs[n]);
    }
    assert(forall|p: int| #[trigger] t2.covers(p) <==> (t.covers(p) || (prev_merge && rs[n - 1].covers(p)) || (next_merge && rs[n].covers(p))));
    if prev_merge && next_merge {
        let u = rs.update(n - 1, t2);
        assert(f == u.remove(n));
        assert forall|p: int| #[trigger] covered(f).contains(p) <==> covered(rs).union(t.span()).contains(p) by {
            if covered(f).contains(p) {
                let k = choose|k: int| 0 <= k < f.len() && #[trigger] f[k].covers(p);
                if k < n - 1 {
                    assert(rs[k].covers(p));
                } else if k > n - 1 {
                    assert(f[k] == rs[k + 1]);
                }
            }
            if covered(rs).contains(p) {
                let k = choose|k: int| 0 <= k < rs.len() && #[trigger] rs[k].covers(p);
                if k < n - 1 {
                    assert(f[k].covers(p));
                } else if k == n - 1 || k == n {
                    assert(f[n - 1].covers(p));
                } else {
                    assert(f[k - 1].covers(p));
                }
            }
            if t.covers(p) {
                assert(f[n - 1].covers(p));
            }
        }
        assert(covered(f) =~= covered(rs).union(t.span()));
    } else if prev_merge || next_merge {
        let m = if prev_merge { n - 1 } else { n };
        let tm = if prev_merge { t1 } else { t2 };
        assert(f == rs.update(m, tm));
        assert forall|p: int| #[trigger] covered(f).contains(p) <==> covered(rs).union(t.span()).contains(p) by {
            if covered(f).contains(p) {
                let k = choose|k: int| 0 <= k < f.len() && #[trigger] f[k].covers(p);
                if k != m {
                    assert(rs[k].covers(p));
                }
            }
            if covered(rs).contains(p) {
                let k = choose|k: int| 0 <= k < rs.len() && #[trigger] rs[k].covers(p);
                assert(f[k].covers(p));
            }
            if t.covers(p) {
                assert(f[m].covers(p));
            }
        }
        assert(covered(f) =~= covered(rs).union(t.span()));
    } else {
        assert(f == rs.insert(n, t));
        assert forall|p: int| #[trigger] covered(f).contains(p) <==> covered(rs).union(t.span()).contains(p) by {
            if covered(f).contains(p) {
                let k = choose|k: int| 0 <= k < f.len() && #[trigger] f[k].covers(p);
                if k < n {
                    assert(rs[k].covers(p));
                } else if k > n {
                    assert(rs[k - 1].covers(p));
                }
            }
            if covered(rs).contains(p) {
                let k = choose|k: int| 0 <= k < rs.len() && #[trigger] rs[k].covers(p);
                if k < n {
                    assert(f[k].covers(p));
                } else {
                    assert(f[k + 1].covers(p));
                }
            }
            if t.covers(p) {
                assert(f[n].covers(p));
            }
        }
        assert(covered(f) =~= covered(rs).union(t.span()));
    }
}


/// Handing back a span that shares no offset with the free spans keeps the
/// free spans from sharing offsets.
pub proof fn lemma_freed_apart(rs: Seq<Range>, t: Range)
    requires
        forward(rs),
        t.start <= t.end,
        pairwise_apart(rs),
        apart_from_all(rs, t),
    ensures
        pairwise_apart(freed(rs, t)),
{
    let f = freed(rs, t);
    lemma_freed_covered(rs, t);
    if rs.len() == 0 {
        return;
    }
    lemma_first_after_exists(rs, t.start);
    let n = first_after(rs, t.start);
    let prev_merge = n > 0 && touching(t, rs[n - 1]);
    let t1 = if prev_merge { joined(t, rs[n - 1]) } else { t };
    let next_merge = n < rs.len() && touching(t1, rs[n]);
    let t2 = if next_merge { joined(t1, rs[n]) } else { t1 };
    if prev_merge {
        lemma_joined_covers(t, rs[n - 1]);
    }
    if next_merge {
        lemma_joined_covers(t1, rs[n]);
    }
    // the glued span shares no offset with a span that is not part of it
    assert forall|k: int| 0 <= k < rs.len() && !(prev_merge && k == n - 1) && !(next_merge && k == n)
        implies apart(t2, #[trigger] rs[k]) by {
        lemma_apart_iff_disjoint(t, rs[k]);
        lemma_apart_iff_disjoint(t2, rs[k]);
        if prev_merge {
            lemma_apart_iff_disjoint(rs[n - 1], rs[k]);
        }
        if next_merge {
            lemma_apart_iff_disjoint(rs[n], rs[k]);
        }
        assert forall|p: int| !(#[trigger] t2.covers(p) && rs[k].covers(p)) by {
            if t2.covers(p) && rs[k].covers(p) {
                if t.covers(p) {
                } else if prev_merge && rs[n - 1].covers(p) {
                } else {
                }
            }
        }
    }
    assert forall|i: int, j: int| 0 <= i < f.len() && 0 <= j < f.len() && i != j
        implies apart(#[trigger] f[i], #[trigger] f[j]) by {
        if prev_merge && next_merge {
            let u = rs.update(n - 1, t2);
            assert(f == u.remove(n));
            let oi = if i < n { i } else { i + 1 };
            let oj = if j < n { j } else { j + 1 };
            if i == n - 1 {
                assert(f[i] == t2);
                assert(f[j] == rs[oj]);
            } else if j == n - 1 {
                assert(f[j] == t2);
                assert(f[i] == rs[oi]);
            } else {
                assert(f[i] == rs[oi]);
                assert(f[j] == rs[oj]);
            }
        } else if prev_merge || next_merge {
            let m = if prev_merge { n - 1 } else { n };
            assert(f == rs.update(m, t2));
            if i == m {
                assert(apart(t2, rs[j]));
            } else if j == m {
                assert(apart(t2, rs[i]));
                lemma_apart_symmetric(t2, rs[i]);
            }
        } else {
            assert(f == rs.insert(n, t));
            let oi = if i < n { i } else { i - 1 };
            let oj = if j < n { j } else { j - 1 };
            if i == n {
                assert(f[j] == rs[oj]);
            } else if j == n {
                assert(f[i] == rs[oi]);
                lemma_apart_symmetric(t, rs[oi]);
            } else {
                assert(f[i] == rs[oi]);
                assert(f[j] == rs[oj]);
            }
        }
    }
}

/// Whether two spans are apart does not depend on their order.
pub proof fn lemma_apart_symmetric(a: Range, b: Range)
    ensures
        apart(a, b) == apart(b, a),
{
}


/// Handing back a non-empty span that shares no offset with the free spans
/// keeps them sorted and coalesced: the span is glued to any neighbour it
/// touches.
pub proof fn lemma_freed_coalesced(rs: Seq<Range>, t: Range)
    requires
        coalesced(rs),
        t.start < t.end,
        apart_from_all(rs, t),
    ensures
        coalesced(freed(rs, t)),
{
    let f = freed(rs, t);
    if rs.len() == 0 {
        return;
    }
    lemma_first_after_exists(rs, t.start);
    let n = first_after(rs, t.start);
    assert forall|j: int| 0 <= j < n implies #[trigger] rs[j].end <= t.start by {
        assert(rs[j].start <= t.start);
        assert(apart(t, rs[j]));
    }
    assert forall|j: int| n <= j < rs.len() implies #[trigger] rs[j].start >= t.end by {
        assert(rs[n].start > t.start);
        assert(apart(t, rs[n]));
        if j > n {
            assert(rs[n].end < rs[j].start);
        }
    }
    let prev_merge = n > 0 && touching(t, rs[n - 1]);
    let t1 = if prev_merge { joined(t, rs[n - 1]) } else { t };
    let next_merge = n < rs.len() && touching(t1, rs[n]);
    let t2 = if next_merge { joined(t1, rs[n]) } else { t1 };
    if n > 0 {
        assert(rs[n - 1].end <= t.start);
        assert(prev_merge == (rs[n - 1].end == t.start));
    }
    if prev_merge {
        assert(t1 == Range { start: rs[n - 1].start, end: t.end });
    }
    if n < rs.len() {
        assert(rs[n].start >= t.end);
        assert(next_merge == (t.end == rs[n].start));
    }
    if next_merge {
        assert(t2 == Range { start: t1.start, end: rs[n].end });
    }
    assert forall|i: int| 0 <= i < f.len() implies #[trigger] f[i].start < f[i].end by {
        if prev_merge && next_merge {
            assert(f == rs.update(n - 1, t2).remove(n));
            if i >= n {
                assert(f[i] == rs[i + 1]);
            }
        } else if prev_merge {
            assert(f == rs.update(n - 1, t1));
        } else if next_merge {
            assert(f == rs.update(n, t2));
        } else {
            assert(f == rs.insert(n, t));
            if i > n {
                assert(f[i] == rs[i - 1]);
            }
        }
    }
    assert forall|i: int, j: int| 0 <= i < j < f.len() implies #[trigger] f[i].end < #[trigger] f[j].start by {
        if prev_merge && next_merge {
            assert(f == rs.update(n - 1, t2).remove(n));
            let oi = if i < n { i } else { i + 1 };
            let oj = if j < n { j } else { j + 1 };
            if i == n - 1 {
                assert(f[j] == rs[oj]);
                assert(rs[n].end < rs[oj].start);
            } else if j == n - 1 {
                assert(f[i] == rs[oi]);
                assert(rs[oi].end < rs[n - 1].start);
            } else {
                assert(f[i] == rs[oi]);
                assert(f[j] == rs[oj]);
            }
        } else if prev_merge {
            assert(f == rs.update(n - 1, t1));
            if i == n - 1 {
                assert(f[j] == rs[j]);
                assert(rs[j].start >= t.end);
                if j > n {
                    assert(rs[n].end < rs[j].start);
                }
            } else if j == n - 1 {
                assert(rs[i].end < rs[n - 1].start);
            }
        } else if next_merge {
            assert(f == rs.update(n, t2));
            if i == n {
                assert(rs[n].end < rs[j].start);
            } else if j == n {
                assert(rs[i].end <= t.start);
                if n > 0 && i == n - 1 {
                    assert(rs[i].end != t.start);
                }
                if i < n - 1 {
                    assert(rs[i].end < rs[n - 1].start);
                }
            }
        } else {
            assert(f == rs.insert(n, t));
            let oi = if i < n { i } else { i - 1 };
            let oj = if j < n { j } else { j - 1 };
            if i == n {
                assert(f[j] == rs[oj]);
                assert(rs[oj].start >= t.end);
                if oj == n {
                    assert(t.end != rs[n].start);
                }
            } else if j == n {
                assert(f[i] == rs[oi]);
                assert(rs[oi].end <= t.start);
                if oi == n - 1 {
                    assert(rs[n - 1].end != t.start);
                }
            } else {
                assert(f[i] == rs[oi]);
                assert(f[j] == rs[oj]);
            }
        }
    }
}

/// Handing back a span below `top` keeps every free span below `top`.
pub proof fn lemma_freed_below(rs: Seq<Range>, t: Range, top: usize)
    requires
        forward(rs),
        t.start <= t.end <= top,
        below(rs, top),
    ensures
        below(freed(rs, t), top),
{
    let f = freed(rs, t);
    if rs.len() == 0 {
        return;
    }
    lemma_first_after_exists(rs, t.start);
    let n = first_after(rs, t.start);
    assert forall|i: int| 0 <= i < f.len() implies #[trigger] f[i].end <= top by {
        let prev_merge = n > 0 && touching(t, rs[n - 1]);
        let t1 = if prev_merge { joined(t, rs[n - 1]) } else { t };
        let next_merge = n < rs.len() && touching(t1, rs[n]);
        if prev_merge && next_merge {
            assert(f == rs.update(n - 1, joined(t1, rs[n])).remove(n));
            if i >= n {
                assert(f[i] == rs[i + 1]);
            }
        } else if !prev_merge && !next_merge {
            assert(f == rs.insert(n, t));
            if i > n {
                assert(f[i] == rs[i - 1]);
            }
        }
    }
}

/// What `find` takes from span `i` lies inside the free offsets; where the
/// free spans share no offset, exactly the taken offsets stop being free.
pub proof fn lemma_taken(rs: Seq<Range>, i: int, length: usize)
    requires
        forward(rs),
        fits(rs, length, i),
    ensures
        ({
            let got = Range { start: rs[i].start, end: (rs[i].start + length) as usize };
            &&& got.span().subset_of(covered(rs))
            &&& forward(taken(rs, i, length))
            &&& pairwise_apart(rs) ==> covered(taken(rs, i, length)) == covered(rs).difference(got.span())
            &&& pairwise_apart(rs) ==> pairwise_apart(taken(rs, i, length))
            &&& coalesced(rs) ==> coalesced(taken(rs, i, length))
            &&& forall|top: usize| below(rs, top) ==> below(taken(rs, i, length), top)
        }),
{
    let got = Range { start: rs[i].start, end: (rs[i].start + length) as usize };
    let tk = taken(rs, i, length);
    let rest = Range { start: (rs[i].start + length) as usize, end: rs[i].end };
    let removed = rs[i].start + length == rs[i].end;
    assert forall|p: int| #[trigger] got.span().contains(p) implies covered(rs).contains(p) by {
        assert(rs[i].covers(p));
    }
    // the index in `rs` of the span at index `k` of `tk`
    assert forall|k: int| 0 <= k < tk.len() implies #[trigger] tk[k] == (if removed {
        if k < i { rs[k] } else { rs[k + 1] }
    } else {
        if k == i { rest } else { rs[k] }
    }) by {
    }
    assert(forward(tk));
    if pairwise_apart(rs) {
        assert forall|p: int| #[trigger] covered(tk).contains(p) <==> covered(rs).difference(got.span()).contains(p) by {
            if covered(tk).contains(p) {
                let k = choose|k: int| 0 <= k < tk.len() && #[trigger] tk[k].covers(p);
                let ok = if removed { if k < i { k } else { k + 1 } } else { k };
                if removed || k != i {
                    assert(rs[ok].covers(p));
                    assert(apart(rs[ok], rs[i]));
                    lemma_apart_iff_disjoint(rs[ok], rs[i]);
                    assert(!got.covers(p));
                } else {
                    assert(rs[i].covers(p));
                }
            }
            if covered(rs).difference(got.span()).contains(p) {
                let k = choose|k: int| 0 <= k < rs.len() && #[trigger] rs[k].covers(p);
                if k == i {
                    assert(rest.covers(p));
                    assert(!removed);
                    assert(tk[i].covers(p));
                } else if removed && k > i {
                    assert(tk[k - 1].covers(p));
                } else {
                    assert(tk[k].covers(p));
                }
            }
        }
        assert(covered(tk) =~= covered(rs).difference(got.span()));
        assert forall|a: int, b: int| 0 <= a < tk.len() && 0 <= b < tk.len() && a != b
            implies apart(#[trigger] tk[a], #[trigger] tk[b]) by {
            let oa = if removed { if a < i { a } else { a + 1 } } else { a };
            let ob = if removed { if b < i { b } else { b + 1 } } else { b };
            assert(apart(rs[oa], rs[ob]));
        }
    }
    if coalesced(rs) {
        assert forall|a: int, b: int| 0 <= a < b < tk.len() implies #[trigger] tk[a].end < #[trigger] tk[b].start by {
            let oa = if removed { if a < i { a } else { a + 1 } } else { a };
            let ob = if removed { if b < i { b } else { b + 1 } } else { b };
            assert(rs[oa].end < rs[ob].start);
        }
    }
}


/// Among the first `n` spans, where one of them fits, there is a first of
/// the smallest that fit.
proof fn lemma_best_in_prefix(rs: Seq<Range>, length: usize, n: int) -> (i: int)
    requires
        0 <= n <= rs.len(),
        exists|j: int| 0 <= j < n && fits(rs, length, j),
    ensures
        0 <= i < n,
        fits(rs, length, i),
        forall|j: int| 0 <= j < n && fits(rs, length, j) ==> rs[j].size() >= rs[i].size(),
        forall|j: int| 0 <= j < i && fits(rs, length, j) ==> rs[j].size() > rs[i].size(),
    decreases n,
{
    if exists|j: int| 0 <= j < n - 1 && fits(rs, length, j) {
        let k = lemma_best_in_prefix(rs, length, n - 1);
        if fits(rs, length, n - 1) && rs[n - 1].size() < rs[k].size() {
            n - 1
        } else {
            k
        }
    } else {
        n - 1
    }
}

/// Where some span fits, `best_fit` names the first of the smallest.
pub proof fn lemma_has_fit_best(rs: Seq<Range>, length: usize)
    requires
        has_fit(rs, length),
    ensures
        is_best_fit(rs, length, best_fit(rs, length)),
{
    let j = choose|j: int| fits(rs, length, j);
    let i = lemma_best_in_prefix(rs, length, rs.len() as int);
    assert(is_best_fit(rs, length, i));
}


impl Ranges {
    /// A copy of the spans and the end.
    pub fn copy(&self) -> (r: Ranges)
        ensures
            r@ == self@,
            r.top() == self.top(),
    {
        let mut ranges: Vec<Range> = Vec::new();
        let mut i: usize = 0;
        while i < self.ranges.len()
            invariant
                i <= self@.len(),
                ranges@ == self@.subrange(0, i as int),
            decreases self@.len() - i,
        {
            ranges.push(self.ranges[i]);
            i = i + 1;
        }
        proof {
            assert(self@.subrange(0, self@.len() as int) =~= self@);
        }
        Ranges { ranges, highest: self.highest }
    }
}

/// The best fit, where there is one, is the only index that is one.
pub proof fn lemma_best_fit_unique(rs: Seq<Range>, length: usize, i: int)
    requires
        is_best_fit(rs, length, i),
    ensures
        best_fit(rs, length) == i,
        has_fit(rs, length),
{
    let k = best_fit(rs, length);
    assert(is_best_fit(rs, length, k));
    if k < i {
        assert(rs[k].size() > rs[i].size());
    } else if i < k {
        assert(rs[i].size() > rs[k].size());
    }
}

} // verus!
