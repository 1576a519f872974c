use vstd::prelude::*;
use vstd::string::*;
use vstd::utf8::*;
use crate::range::{
    Range, Ranges, covered, has_fit, best_fit, is_best_fit, taken, freed, forward,
    pairwise_apart, apart_from_all, below,
};

verus! {

broadcast use encode_utf8_valid_utf8;

/// Whether offset `i` of the UTF-8 text `b` starts a character or ends the
/// text: for valid text this depends on the byte at `i` alone.
pub proof fn lemma_boundary_local(b: Seq<u8>, i: int)
    requires
        valid_utf8(b),
        0 <= i <= b.len(),
    ensures
        is_char_boundary(b, i) <==> (i == b.len() || !is_continuation_byte(b[i])),
{
    if i == b.len() {
        is_char_boundary_start_end_of_seq(b);
    } else {
        is_char_boundary_iff_not_is_continuation_byte(b, i);
    }
}

/// The bytes between two character boundaries of valid text are valid text.
pub proof fn lemma_valid_between(b: Seq<u8>, i: int, j: int)
    requires
        valid_utf8(b),
        i <= j,
        is_char_boundary(b, i),
        is_char_boundary(b, j),
    ensures
        0 <= i <= j <= b.len(),
        valid_utf8(b.subrange(i, j)),
        valid_utf8(b.subrange(0, i)),
        valid_utf8(b.subrange(j, b.len() as int)),
{
    lemma_boundary_in_range(b, i);
    lemma_boundary_in_range(b, j);
    valid_utf8_split(b, i);
    valid_utf8_split(b, j);
    let suffix = b.subrange(i, b.len() as int);
    lemma_boundary_local(b, j);
    lemma_boundary_local(suffix, j - i);
    if j < b.len() {
        assert(suffix[j - i] == b[j]);
    }
    valid_utf8_split(suffix, j - i);
    assert(suffix.subrange(0, j - i) =~= b.subrange(i, j));
}

/// A character boundary lies inside the text or at its end.
pub proof fn lemma_boundary_in_range(b: Seq<u8>, i: int)
    requires
        valid_utf8(b),
        is_char_boundary(b, i),
    ensures
        0 <= i <= b.len(),
{
    reveal_with_fuel(is_char_boundary, 1);
}


/// In valid text, the character that starts at a boundary ends at the next
/// boundary.
pub proof fn lemma_next_boundary(b: Seq<u8>, i: int)
    requires
        valid_utf8(b),
        is_char_boundary(b, i),
        0 <= i < b.len(),
    ensures
        is_char_boundary(b, i + length_of_first_scalar(b.subrange(i, b.len() as int))),
    decreases b.len(),
{
    reveal_with_fuel(is_char_boundary, 2);
    reveal_with_fuel(valid_utf8, 2);
    let l0 = length_of_first_scalar(b);
    let rest = pop_first_scalar(b);
    if i == 0 {
        assert(b.subrange(0, b.len() as int) =~= b);
        assert(is_char_boundary(rest, 0));
    } else {
        assert(is_char_boundary(rest, i - l0));
        let tail = b.subrange(i, b.len() as int);
        assert(rest.subrange(i - l0, rest.len() as int) =~= tail);
        if i - l0 < rest.len() {
            lemma_next_boundary(rest, i - l0);
        }
    }
}

/// In valid text, the offset after a one-byte (ASCII) character is a
/// boundary.
pub proof fn lemma_after_ascii(b: Seq<u8>, i: int)
    requires
        valid_utf8(b),
        0 <= i < b.len(),
        b[i] < 0x80,
    ensures
        is_char_boundary(b, i + 1),
{
    lemma_boundary_local(b, i);
    lemma_next_boundary(b, i);
    assert(b.subrange(i, b.len() as int)[0] == b[i]);
}

/// Text whose bytes are `bytes`, which must be valid UTF-8.
#[verifier::external_body]
pub(crate) fn utf8_text(bytes: &[u8]) -> (text: &str)
    requires
        valid_utf8(bytes@),
    ensures
        text.spec_bytes() == bytes@,
{
    match std::str::from_utf8(bytes) {
        Ok(text) => text,
        Err(_) => "",
    }
}



/// The span that `add` picks for `length` bytes, given the free spans `fs`
/// of a buffer that ends at `top`: the front of the best fit, else the end.
pub open spec fn span_for_in(fs: Seq<Range>, top: usize, length: usize) -> Range {
    if has_fit(fs, length) {
        Range { start: fs[best_fit(fs, length)].start, end: (fs[best_fit(fs, length)].start + length) as usize }
    } else {
        Range { start: top, end: (top + length) as usize }
    }
}

/// `add` can place `length` bytes in the buffer `bytes` with free spans `fs`
/// and end `top`: a reused span starts and ends on character boundaries, and
/// a grown buffer stays addressable.
pub open spec fn add_ok_in(bytes: Seq<u8>, fs: Seq<Range>, top: usize, length: usize) -> bool {
    if has_fit(fs, length) {
        &&& is_char_boundary(bytes, span_for_in(fs, top, length).start as int)
        &&& is_char_boundary(bytes, span_for_in(fs, top, length).end as int)
    } else {
        top + length <= usize::MAX
    }
}

/// `after` is `before` once the bytes `src` were stored in span `r` by `add`.
pub open spec fn added(before: Strings, after: Strings, src: Seq<u8>, r: Range) -> bool {
    let length = src.len() as usize;
    let fs = before.free_spans()@;
    &&& r == before.span_for(length)
    &&& r.end - r.start == src.len()
    &&& has_fit(fs, length) ==> {
        &&& after.free_spans()@ == taken(fs, best_fit(fs, length), length)
        &&& after.free_spans().top() == before.free_spans().top()
        &&& after.bytes() == before.bytes().subrange(0, r.start as int) + src
                + before.bytes().subrange(r.end as int, before.bytes().len() as int)
    }
    &&& !has_fit(fs, length) ==> {
        &&& after.free_spans()@ == fs
        &&& after.free_spans().top() == before.free_spans().top() + length
        &&& after.bytes() == before.bytes() + src
    }
    // a read of the returned span gives the string back
    &&& after.readable(r)
    &&& after.bytes().subrange(r.start as int, r.end as int) == src
    // nothing outside the returned span changes
    &&& after.bytes().len() >= before.bytes().len()
    &&& forall|p: int| 0 <= p < before.bytes().len() && !r.covers(p)
        ==> #[trigger] after.bytes()[p] == before.bytes()[p]
    // the span was free, or lies past the old end of the buffer
    &&& r.span().subset_of(covered(fs)) || r.start == before.bytes().len()
}

/// A text buffer that hands out spans for strings and reuses the spans
/// handed back.
#[derive(Debug)]
pub struct Strings {
    free_ranges: Ranges,
    strings: Vec<u8>,
}

impl Strings {
    /// The bytes of the buffer.
    pub closed spec fn bytes(&self) -> Seq<u8> {
        self.strings@
    }

    /// The spans of the buffer that are free for reuse.
    pub closed spec fn free_spans(&self) -> Ranges {
        self.free_ranges
    }

    /// The buffer is valid UTF-8 and the free spans describe a buffer of its
    /// length.
    pub open spec fn wf(&self) -> bool {
        &&& valid_utf8(self.bytes())
        &&& self.free_spans().top() == self.bytes().len()
    }

    /// The span that `add` picks for a string of `length` bytes.
    pub open spec fn span_for(&self, length: usize) -> Range {
        span_for_in(self.free_spans()@, self.free_spans().top(), length)
    }

    /// `add` can place a string of `length` bytes.
    pub open spec fn add_ok(&self, length: usize) -> bool {
        add_ok_in(self.bytes(), self.free_spans()@, self.free_spans().top(), length)
    }

    /// `span` starts and ends on character boundaries of the buffer.
    pub open spec fn readable(&self, span: Range) -> bool {
        &&& span.start <= span.end
        &&& is_char_boundary(self.bytes(), span.start as int)
        &&& is_char_boundary(self.bytes(), span.end as int)
    }

    pub fn new() -> (s: Strings)
        ensures
            s.wf(),
            s.free_spans().wf(),
            s.bytes() == Seq::<u8>::empty(),
            s.free_spans()@ == Seq::<Range>::empty(),
            s.free_spans().top() == 0,
    {
        Strings { free_ranges: Ranges::new(), strings: Vec::new() }
    }

    /// Stores `string` in a free span that fits it (the first of the smallest),
    /// else at the end of the buffer, and returns its span.
    pub fn add(&mut self, string: &str) -> (r: Range)
        requires
            old(self).wf(),
            old(self).free_spans().wf(),
            old(self).add_ok(string.spec_bytes().len() as usize),
        ensures
            final(self).wf(),
            final(self).free_spans().wf(),
            added(*old(self), *final(self), string.spec_bytes(), r),
    {
        let bytes = string.as_bytes();
        let length = bytes.len();
        let ghost old_bytes = self.strings@;
        let ghost src = string.spec_bytes();
        proof {
            assert(bytes@ == src);
        }
        let found = self.free_ranges.find(length);
        let ghost ranges_after = self.free_ranges;
        match found {
            Ok(range) => {
                proof {
                    lemma_valid_between(old_bytes, range.start as int, range.end as int);
                }
                let mut k: usize = 0;
                while k < length
                    invariant
                        k <= length,
                        range.end == range.start + length,
                        range.end <= old_bytes.len(),
                        bytes@ == src,
                        length == src.len(),
                        self.free_ranges == ranges_after,
                        self.strings@.len() == old_bytes.len(),
                        forall|p: int| 0 <= p < old_bytes.len() ==> #[trigger] self.strings@[p] == (
                            if range.start <= p < range.start + k { src[p - range.start] } else { old_bytes[p] }),
                    decreases length - k,
                {
                    self.strings.set(range.start + k, bytes[k]);
                    k = k + 1;
                }
                proof {
                    let new_bytes = self.strings@;
                    assert(new_bytes =~= old_bytes.subrange(0, range.start as int) + src
                        + old_bytes.subrange(range.end as int, old_bytes.len() as int));
                    valid_utf8_concat(old_bytes.subrange(0, range.start as int), src);
                    valid_utf8_concat(old_bytes.subrange(0, range.start as int) + src,
                        old_bytes.subrange(range.end as int, old_bytes.len() as int));
                    lemma_boundary_local(old_bytes, range.start as int);
                    lemma_boundary_local(old_bytes, range.end as int);
                    lemma_boundary_local(new_bytes, range.start as int);
                    lemma_boundary_local(new_bytes, range.end as int);
                    lemma_boundary_local(src, 0);
                    if length > 0 {
                        assert(new_bytes[range.start as int] == src[0]);
                    }
                    assert(new_bytes.subrange(range.start as int, range.end as int) =~= src);
                }
                range
            },
            Err(range) => {
                let mut k: usize = 0;
                while k < length
                    invariant
                        k <= length,
                        bytes@ == src,
                        length == src.len(),
                        self.free_ranges == ranges_after,
                        self.strings@ =~= old_bytes + src.subrange(0, k as int),
                    decreases length - k,
                {
                    self.strings.push(bytes[k]);
                    k = k + 1;
                }
                proof {
                    let new_bytes = self.strings@;
                    assert(src.subrange(0, length as int) =~= src);
                    valid_utf8_concat(old_bytes, src);
                    is_char_boundary_start_end_of_seq(new_bytes);
                    is_char_boundary_start_end_of_seq(old_bytes);
                    lemma_boundary_local(old_bytes, old_bytes.len() as int);
                    lemma_boundary_local(new_bytes, old_bytes.len() as int);
                    lemma_boundary_local(src, 0);
                    if length > 0 {
                        assert(new_bytes[old_bytes.len() as int] == src[0]);
                    }
                    assert(new_bytes.subrange(range.start as int, range.end as int) =~= src);
                }
                range
            },
        }
    }

    pub fn strlen(&self) -> (n: usize)
        ensures
            n == self.bytes().len(),
    {
        self.strings.len()
    }

    /// The string stored in `range`.
    pub fn get(&self, range: Range) -> (s: &str)
        requires
            self.wf(),
            self.readable(range),
        ensures
            s.spec_bytes() == self.bytes().subrange(range.start as int, range.end as int),
    {
        proof {
            lemma_valid_between(self.bytes(), range.start as int, range.end as int);
        }
        let slice = vstd::slice::slice_subrange(self.strings.as_slice(), range.start, range.end);
        utf8_text(slice)
    }

    /// Hands `range` back for reuse; the bytes stay as they are.
    pub fn free(&mut self, range: Range)
        ensures
            old(self).wf() ==> final(self).wf(),
            final(self).bytes() == old(self).bytes(),
            final(self).free_spans()@ == freed(old(self).free_spans()@, range),
            final(self).free_spans().top() == old(self).free_spans().top(),
            old(self).free_spans().wf() && range.start <= range.end ==> {
                &&& final(self).free_spans().wf()
                &&& covered(final(self).free_spans()@) == covered(old(self).free_spans()@).union(range.span())
                &&& pairwise_apart(old(self).free_spans()@) && apart_from_all(old(self).free_spans()@, range)
                    ==> pairwise_apart(final(self).free_spans()@)
                &&& below(old(self).free_spans()@, old(self).free_spans().top())
                    && range.end <= old(self).free_spans().top()
                    ==> below(final(self).free_spans()@, final(self).free_spans().top())
            },
    {
        self.free_ranges.free(range);
    }

    /// The whole buffer as text.
    pub fn data(&self) -> (s: &str)
        requires
            self.wf(),
        ensures
            s.spec_bytes() == self.bytes(),
    {
        utf8_text(self.strings.as_slice())
    }
}


impl Strings {
    /// Whether offset `index` starts a character of the buffer or ends it.
    pub fn char_boundary(&self, index: usize) -> (b: bool)
        requires
            self.wf(),
        ensures
            b == is_char_boundary(self.bytes(), index as int),
    {
        proof {
            if is_char_boundary(self.bytes(), index as int) {
                lemma_boundary_in_range(self.bytes(), index as int);
            }
        }
        if index > self.strings.len() {
            return false;
        }
        proof {
            lemma_boundary_local(self.bytes(), index as int);
        }
        if index == self.strings.len() {
            return true;
        }
        let byte = self.strings[index];
        !(0x80 <= byte && byte <= 0xbf)
    }

    /// Whether `get` can read `range`.
    pub fn can_get(&self, range: Range) -> (b: bool)
        requires
            self.wf(),
        ensures
            b == self.readable(range),
    {
        range.start <= range.end && self.char_boundary(range.start) && self.char_boundary(range.end)
    }

    /// The span that `add` would fill with `length` bytes, were the free
    /// spans `spans`, where it can fill one.
    pub fn place_in(&self, spans: &Ranges, length: usize) -> (r: Option<Range>)
        requires
            self.wf(),
            spans.wf(),
        ensures
            r is Some <==> add_ok_in(self.bytes(), spans@, spans.top(), length),
            r is Some ==> r->0 == span_for_in(spans@, spans.top(), length),
    {
        match spans.best_fit_index(length) {
            Some(i) => {
                let start = spans.get(i).unwrap().start;
                proof {
                    assert(spans@[i as int].start + length <= spans@[i as int].end);
                }
                if self.char_boundary(start) && self.char_boundary(start + length) {
                    Some(Range { start, end: start + length })
                } else {
                    None
                }
            },
            None => {
                if spans.highest() <= usize::MAX - length {
                    Some(Range { start: spans.highest(), end: spans.highest() + length })
                } else {
                    None
                }
            },
        }
    }

    /// Whether `add` can store `string`.
    pub fn can_add(&self, string: &str) -> (b: bool)
        requires
            self.wf(),
            self.free_spans().wf(),
        ensures
            b == self.add_ok(string.spec_bytes().len() as usize),
    {
        self.place_in(&self.free_ranges, string.len()).is_some()
    }

    /// The free spans.
    pub fn free_ranges(&self) -> (r: &Ranges)
        ensures
            *r == self.free_spans(),
    {
        &self.free_ranges
    }
}


impl Default for Strings {
    /// An empty buffer.
    fn default() -> (s: Strings)
        ensures
            s.wf(),
            s.free_spans().wf(),
            s.bytes() == Seq::<u8>::empty(),
            s.free_spans()@ == Seq::<Range>::empty(),
    {
        Strings::new()
    }
}

/// One stretch of the buffer as the inspector reports it: a free span, or the
/// used bytes between free spans.
pub struct StringsInspectionEntry<'a> {
    pub range: Range,
    pub free: bool,
    pub value: &'a str,
}

/// Walks the buffer stretch by stretch: the used bytes before the first free
/// span, then each free span followed by the used bytes after it; with no
/// free span, the whole buffer as one used stretch.
pub struct StringsInspector<'a> {
    strings: &'a Strings,
    index: usize,
    prefix_emitted: bool,
}

/// One step of the inspector over free spans `fs` of a buffer that ends at
/// `top`, at free span `index`, with the used stretch before it reported or
/// not: the stretch reported (its span, and whether it is free), and the
/// next index and flag.
pub open spec fn inspect_step(fs: Seq<Range>, top: usize, index: usize, prefix: bool)
    -> (Option<(Range, bool)>, usize, bool)
{
    if index >= fs.len() {
        if prefix {
            (None, index, prefix)
        } else if index == 0 {
            // no free span: the whole buffer is one used stretch
            if top == 0 {
                (None, index, prefix)
            } else {
                (Some((Range { start: 0, end: top }, false)), 0, true)
            }
        } else {
            let range = if index - 1 < fs.len() { fs[index - 1] } else { Range { start: 0, end: 0 } };
            if top <= range.end {
                (None, index, prefix)
            } else {
                (Some((Range { start: range.end, end: top }, false)), index, true)
            }
        }
    } else if index == 0 {
        if prefix || fs[0].start == 0 {
            (Some((fs[0], true)), 1, false)
        } else {
            (Some((Range { start: 0, end: fs[0].start }, false)), 0, true)
        }
    } else if prefix {
        (Some((fs[index as int], true)), (index + 1) as usize, false)
    } else {
        (Some((Range { start: fs[index - 1].end, end: fs[index as int].start }, false)), index, true)
    }
}

/// The step `inspect_step` takes from free span `index` reads whole
/// characters, and the spans it reports between run forwards.
pub open spec fn inspect_ok(s: Strings, index: usize, prefix: bool) -> bool {
    let fs = s.free_spans()@;
    let top = s.free_spans().top();
    if index >= fs.len() {
        !prefix && index != 0 ==> {
            let range = if index - 1 < fs.len() { fs[index - 1] } else { Range { start: 0, end: 0 } };
            top > range.end ==> is_char_boundary(s.bytes(), range.end as int)
        }
    } else if index == 0 {
        if prefix || fs[0].start == 0 {
            s.readable(fs[0])
        } else {
            is_char_boundary(s.bytes(), fs[0].start as int)
        }
    } else if prefix {
        s.readable(fs[index as int])
    } else {
        &&& fs[index - 1].end <= fs[index as int].start
        &&& is_char_boundary(s.bytes(), fs[index - 1].end as int)
        &&& is_char_boundary(s.bytes(), fs[index as int].start as int)
    }
}

impl Strings {
    /// Every free span can be read, and each starts where or after the one
    /// before it ends: what the inspector needs to report the buffer.
    pub open spec fn inspectable(&self) -> bool {
        let fs = self.free_spans()@;
        &&& forall|i: int| 0 <= i < fs.len() ==> #[trigger] self.readable(fs[i])
        &&& forall|i: int| 1 <= i < fs.len() ==> #[trigger] fs[i].start >= fs[i - 1].end
    }

    /// Whether the inspector can report the buffer.
    pub fn can_inspect(&self) -> (b: bool)
        requires
            self.wf(),
        ensures
            b == self.inspectable(),
    {
        let n = self.free_ranges.len();
        let mut i: usize = 0;
        while i < n
            invariant
                self.wf(),
                n == self.free_spans()@.len(),
                i <= n,
                forall|j: int| 0 <= j < i ==> #[trigger] self.readable(self.free_spans()@[j]),
                forall|j: int| 1 <= j < i ==> #[trigger] self.free_spans()@[j].start >= self.free_spans()@[j - 1].end,
            decreases n - i,
        {
            let r = *self.free_ranges.get(i).unwrap();
            if !self.can_get(r) {
                return false;
            }
            if i > 0 && !(r.start >= self.free_ranges.get(i - 1).unwrap().end) {
                return false;
            }
            i = i + 1;
        }
        true
    }

    /// An inspector at the start of the buffer.
    pub fn iter<'s>(&'s self) -> (it: StringsInspector<'s>)
        ensures
            it.source() == *self,
            it.position() == 0,
            !it.prefix_done(),
    {
        StringsInspector::new(self)
    }
}

impl<'a> StringsInspector<'a> {
    /// The buffer inspected.
    pub closed spec fn source(&self) -> Strings {
        *self.strings
    }

    /// The free span the inspector is at.
    pub closed spec fn position(&self) -> usize {
        self.index
    }

    /// Whether the used stretch before the current free span was reported.
    pub closed spec fn prefix_done(&self) -> bool {
        self.prefix_emitted
    }

    pub fn new(strings: &'a Strings) -> (it: StringsInspector<'a>)
        ensures
            it.source() == *strings,
            it.position() == 0,
            !it.prefix_done(),
    {
        StringsInspector { strings, index: 0, prefix_emitted: false }
    }

    /// The used bytes after the last free span, once the spans are done.
    fn last_entry(&mut self) -> (r: Option<StringsInspectionEntry<'a>>)
        requires
            old(self).source().wf(),
            inspect_ok(old(self).source(), old(self).position(), old(self).prefix_done()),
            old(self).position() >= old(self).source().free_spans()@.len(),
        ensures
            stepped(*old(self), *final(self), r),
    {
        let ghost s = *self.strings;
        proof {
            is_char_boundary_start_end_of_seq(s.bytes());
        }
        if self.prefix_emitted {
            return None;
        }
        if self.index == 0 {
            let highest = self.strings.free_ranges.highest();
            if highest == 0 {
                return None;
            }
            let span = Range { start: 0, end: highest };
            let value = self.strings.get(span);
            self.prefix_emitted = true;
            return Some(StringsInspectionEntry { range: span, free: false, value });
        }
        let range = match self.strings.free_ranges.get(self.index - 1) {
            Some(r) => *r,
            None => Range::new(0, 0),
        };
        let highest = self.strings.free_ranges.highest();
        if highest <= range.end {
            return None;
        }
        let span = Range { start: range.end, end: highest };
        let value = self.strings.get(span);
        self.prefix_emitted = true;
        Some(StringsInspectionEntry { range: span, free: false, value })
    }

    /// The used bytes before the first free span, or the first free span.
    fn first_entries(&mut self) -> (r: Option<StringsInspectionEntry<'a>>)
        requires
            old(self).source().wf(),
            inspect_ok(old(self).source(), old(self).position(), old(self).prefix_done()),
            old(self).position() == 0,
            0 < old(self).source().free_spans()@.len(),
        ensures
            stepped(*old(self), *final(self), r),
    {
        let ghost s = *self.strings;
        let range = *self.strings.free_ranges.get(self.index).unwrap();
        proof {
            is_char_boundary_start_end_of_seq(s.bytes());
        }
        if range.start == 0 {
            self.prefix_emitted = true;
        }
        if self.prefix_emitted {
            let value = self.strings.get(range);
            self.index = self.index + 1;
            self.prefix_emitted = false;
            return Some(StringsInspectionEntry { range, free: true, value });
        }
        let span = Range::new(0, range.start);
        let value = self.strings.get(span);
        self.prefix_emitted = true;
        Some(StringsInspectionEntry { range: span, free: false, value })
    }

    /// The next stretch of the buffer, if any.
    pub fn next(&mut self) -> (r: Option<StringsInspectionEntry<'a>>)
        requires
            old(self).source().wf(),
            inspect_ok(old(self).source(), old(self).position(), old(self).prefix_done()),
        ensures
            stepped(*old(self), *final(self), r),
            // a stretch reported free is one of the free spans, and a stretch
            // reported used overlaps none of them
            old(self).source().inspectable() && old(self).position() <= old(self).source().free_spans()@.len()
                ==> (r matches Some(e) ==> {
                    &&& e.free ==> (exists|i: int| 0 <= i < old(self).source().free_spans()@.len()
                        && old(self).source().free_spans()@[i] == e.range)
                    &&& !e.free ==> apart_from_all(old(self).source().free_spans()@, e.range)
                }),
    {
        let ghost s = *self.strings;
        proof {
            if s.inspectable() && self.index <= s.free_spans()@.len() {
                lemma_inspectable_in_order(s);
                lemma_inspector_reports_truly(s.free_spans()@, s.free_spans().top(), self.index, self.prefix_emitted);
            }
        }
        if self.index >= self.strings.free_ranges.len() {
            return self.last_entry();
        }
        if self.index == 0 {
            return self.first_entries();
        }
        let range = *self.strings.free_ranges.get(self.index).unwrap();
        if self.prefix_emitted {
            let value = self.strings.get(range);
            self.index = self.index + 1;
            self.prefix_emitted = false;
            return Some(StringsInspectionEntry { range, free: true, value });
        }
        let last_range = *self.strings.free_ranges.get(self.index - 1).unwrap();
        let span = Range::new(last_range.end, range.start);
        let value = self.strings.get(span);
        self.prefix_emitted = true;
        Some(StringsInspectionEntry { range: span, free: false, value })
    }
}

/// Where every free span can be read and they run in order, every step of
/// the inspector can be taken.
pub proof fn lemma_inspectable_steps(s: Strings, index: usize, prefix: bool)
    requires
        s.wf(),
        s.inspectable(),
    ensures
        inspect_ok(s, index, prefix),
{
    let fs = s.free_spans()@;
    is_char_boundary_start_end_of_seq(s.bytes());
    if index >= fs.len() {
        if index != 0 && index - 1 < fs.len() {
            assert(s.readable(fs[index - 1]));
        }
    } else {
        assert(s.readable(fs[index as int]));
        if index > 0 {
            assert(s.readable(fs[index - 1]));
            assert(fs[index as int].start >= fs[index - 1].end);
        }
    }
}

/// `after` is the inspector `before` moved one stretch on, and `r` what it
/// reported: as `inspect_step` says, with the stretch's bytes as its value.
pub open spec fn stepped<'a>(
    before: StringsInspector<'a>,
    after: StringsInspector<'a>,
    r: Option<StringsInspectionEntry<'a>>,
) -> bool {
    let s = before.source();
    let (entry, index, prefix) = inspect_step(s.free_spans()@, s.free_spans().top(), before.position(),
        before.prefix_done());
    &&& after.source() == s
    &&& after.position() == index
    &&& after.prefix_done() == prefix
    &&& entry is None ==> r is None
    &&& entry matches Some((range, free)) ==> (r matches Some(e) && {
        &&& e.range == range
        &&& e.free == free
        &&& e.value.spec_bytes() == s.bytes().subrange(range.start as int, range.end as int)
    })
}

/// How far into the buffer an inspector at free span `index`, with the used
/// stretch before that span reported (`prefix`) or not, has reported.
pub open spec fn reported_to(fs: Seq<Range>, top: usize, index: usize, prefix: bool) -> int {
    if !prefix {
        if index == 0 {
            0
        } else if index - 1 < fs.len() {
            fs[index - 1].end as int
        } else {
            top as int
        }
    } else if index < fs.len() {
        fs[index as int].start as int
    } else {
        top as int
    }
}

/// The inspector walks the buffer without gaps or overlaps: each stretch it
/// reports starts where the walk had got to and ends where the walk gets to,
/// and it reports nothing only once the walk has reached the end of the
/// buffer, where it stays. Each step that reports moves it on, so the
/// stretches reported tile the buffer from offset 0 to its end.
pub proof fn lemma_inspector_tiles(fs: Seq<Range>, top: usize, index: usize, prefix: bool)
    requires
        index <= fs.len() <= usize::MAX,
        below(fs, top),
    ensures
        ({
            let (entry, index2, prefix2) = inspect_step(fs, top, index, prefix);
            &&& entry matches Some((r, _)) ==> {
                &&& r.start == reported_to(fs, top, index, prefix)
                &&& r.end == reported_to(fs, top, index2, prefix2)
                &&& 2 * index2 + (if prefix2 { 1int } else { 0 }) > 2 * index + (if prefix { 1int } else { 0 })
                &&& index2 <= fs.len()
            }
            &&& entry is None ==> {
                &&& reported_to(fs, top, index, prefix) == top
                &&& index2 == index && prefix2 == prefix
            }
        }),
{
    let n = fs.len();
    if index >= n {
        if !prefix && index > 0 {
            assert(fs[index - 1].end <= top);
        }
    } else if index == 0 {
        if prefix || fs[0].start == 0 {
            assert(inspect_step(fs, top, index, prefix) == (Some((fs[0], true)), 1usize, false));
            assert(reported_to(fs, top, 1, false) == fs[0].end);
        } else {
            assert(reported_to(fs, top, 0, true) == fs[0].start);
        }
    } else if prefix {
        assert(inspect_step(fs, top, index, prefix) == (Some((fs[index as int], true)), (index + 1) as usize, false));
        assert(reported_to(fs, top, (index + 1) as usize, false) == fs[index as int].end);
    } else {
        assert(reported_to(fs, top, index, true) == fs[index as int].start);
    }
}

/// The spans run forwards and in order: each ends at or before any later
/// one starts.
pub open spec fn spans_in_order(fs: Seq<Range>) -> bool {
    &&& forall|i: int| 0 <= i < fs.len() ==> #[trigger] fs[i].start <= fs[i].end
    &&& forall|i: int, j: int| 0 <= i < j < fs.len() ==> #[trigger] fs[i].end <= #[trigger] fs[j].start
}

/// Free spans that the inspector can report run in order.
pub proof fn lemma_inspectable_in_order(s: Strings)
    requires
        s.inspectable(),
    ensures
        spans_in_order(s.free_spans()@),
{
    let fs = s.free_spans()@;
    assert forall|i: int| 0 <= i < fs.len() implies #[trigger] fs[i].start <= fs[i].end by {
        assert(s.readable(fs[i]));
    }
    assert forall|i: int, j: int| 0 <= i < j < fs.len() implies #[trigger] fs[i].end <= #[trigger] fs[j].start by {
        lemma_order_between(s, i, j);
    }
}

proof fn lemma_order_between(s: Strings, i: int, j: int)
    requires
        s.inspectable(),
        0 <= i < j < s.free_spans()@.len(),
    ensures
        s.free_spans()@[i].end <= s.free_spans()@[j].start,
    decreases j - i,
{
    let fs = s.free_spans()@;
    assert(fs[j].start >= fs[j - 1].end);
    if i < j - 1 {
        lemma_order_between(s, i, j - 1);
        assert(s.readable(fs[j - 1]));
    }
}

/// What the inspector reports is true of the buffer: a stretch reported free
/// is one of the free spans, and a stretch reported used shares no offset
/// with any free span.
pub proof fn lemma_inspector_reports_truly(fs: Seq<Range>, top: usize, index: usize, prefix: bool)
    requires
        spans_in_order(fs),
        index <= fs.len(),
    ensures
        ({
            let (entry, index2, prefix2) = inspect_step(fs, top, index, prefix);
            &&& entry matches Some((r, true)) ==> (exists|i: int| 0 <= i < fs.len() && fs[i] == r)
            &&& entry matches Some((r, false)) ==> apart_from_all(fs, r)
        }),
{
    let n = fs.len();
    if index >= n {
        if !prefix && index > 0 {
            let x = fs[index - 1].end;
            assert forall|j: int| 0 <= j < n implies crate::range::apart(Range { start: x, end: top }, #[trigger] fs[j]) by {
                if j < index - 1 {
                    assert(fs[j].end <= fs[index - 1].start);
                }
            }
        }
    } else if index == 0 {
        if prefix || fs[0].start == 0 {
            assert(fs[0] == fs[0]);
        } else {
            assert forall|j: int| 0 <= j < n implies crate::range::apart(Range { start: 0, end: fs[0].start }, #[trigger] fs[j]) by {
                if j > 0 {
                    assert(fs[0].end <= fs[j].start);
                }
            }
        }
    } else if prefix {
        assert(fs[index as int] == fs[index as int]);
    } else {
        let x = fs[index - 1].end;
        let y = fs[index as int].start;
        assert forall|j: int| 0 <= j < n implies crate::range::apart(Range { start: x, end: y }, #[trigger] fs[j]) by {
            if j < index - 1 {
                assert(fs[j].end <= fs[index - 1].start);
            } else if j > index as int {
                assert(fs[index as int].end <= fs[j].start);
            }
        }
    }
}

} // verus!
