pub mod cursor;
pub mod iterator;
pub mod list_ranker;
pub mod ranking;

use vstd::prelude::*;
use vstd::string::*;
use vstd::utf8::*;
use crate::error::Error;
use crate::range::{
    Range, apart, apart_from_all, below, covered, forward, freed, pairwise_apart, taken, has_fit,
    best_fit, lemma_apart_iff_disjoint, lemma_taken, lemma_freed_covered,
};
use crate::strings::{Strings, added, add_ok_in, span_for_in};
pub use crate::list::list_ranker::Direction;
pub use crate::list::cursor::Cursor;
pub use crate::list::iterator::ListIterator;
use crate::list::ranking::{
    preference, heap_ordered, session_ok, questions_left, lemma_add_session, lemma_delete_session,
    lemma_defer_session,
};

verus! {

/// Index of the parent of node `child` in a binary heap laid out in an array.
pub fn parent(child: usize) -> (p: usize)
    requires
        child > 0,
    ensures
        p == (child - 1) / 2,
{
    (child - 1) / 2
}

/// Index of the left child of node `parent`.
pub fn left(parent: usize) -> (c: usize)
    requires
        parent * 2 + 1 <= usize::MAX,
    ensures
        c == parent * 2 + 1,
{
    parent * 2 + 1
}

/// Index of the right child of node `parent`.
pub fn right(parent: usize) -> (c: usize)
    requires
        parent * 2 + 2 <= usize::MAX,
    ensures
        c == parent * 2 + 2,
{
    parent * 2 + 2
}

/// Both children of a node have that node as their parent.
pub proof fn lemma_children_parent(p: int)
    requires
        p >= 0,
    ensures
        ((p * 2 + 1) - 1) / 2 == p,
        ((p * 2 + 2) - 1) / 2 == p,
{
}

/// A task list kept as a binary heap: index 0 holds the task that is next up,
/// and the children of index `i` sit at `2i + 1` and `2i + 2`.
#[derive(Debug)]
pub struct List {
    strings: Strings,
    rank: Vec<Range>,
    dirty: bool,
}

/// Swaps the entries at `i` and `j`.
pub open spec fn swapped<A>(s: Seq<A>, i: int, j: int) -> Seq<A> {
    s.update(i, s[j]).update(j, s[i])
}

impl View for List {
    type V = Seq<Seq<u8>>;

    /// The UTF-8 bytes of each task, in heap order.
    closed spec fn view(&self) -> Seq<Seq<u8>> {
        Seq::new(self.rank@.len(), |i: int| self.strings.bytes().subrange(self.rank@[i].start as int, self.rank@[i].end as int))
    }
}

impl List {
    /// The span of the text buffer that holds each task, in heap order.
    pub closed spec fn ranks(&self) -> Seq<Range> {
        self.rank@
    }

    /// The text buffer.
    pub closed spec fn text(&self) -> Strings {
        self.strings
    }

    /// Whether the list changed since it was made or loaded.
    pub closed spec fn is_dirty(&self) -> bool {
        self.dirty
    }

    /// Every task's span lies inside the buffer and shares no offset with a
    /// free span or with another task's span; the span of a non-empty task
    /// reads whole characters; the free spans run forwards, share no offset
    /// with each other and lie inside the buffer.
    pub open spec fn wf(&self) -> bool {
        let s = self.text();
        let fs = s.free_spans()@;
        &&& s.wf()
        &&& s.free_spans().wf()
        &&& pairwise_apart(fs)
        &&& below(fs, s.free_spans().top())
        &&& forall|i: int| 0 <= i < self.ranks().len()
            ==> #[trigger] self.ranks()[i].start <= self.ranks()[i].end <= s.bytes().len()
        &&& forall|i: int| 0 <= i < self.ranks().len() && self.ranks()[i].start < self.ranks()[i].end
            ==> s.readable(#[trigger] self.ranks()[i])
        &&& forall|i: int| 0 <= i < self.ranks().len() ==> apart_from_all(fs, #[trigger] self.ranks()[i])
        &&& pairwise_apart(self.ranks())
    }

    /// The task at `i`, if there is one, starts and ends on character
    /// boundaries, so that it can be read. A non-empty task always can; an
    /// empty one can lose that when bytes around it are rewritten.
    pub open spec fn readable_at(&self, i: int) -> bool {
        0 <= i < self.ranks().len() ==> self.text().readable(self.ranks()[i])
    }

    /// Every task can be read.
    pub open spec fn all_readable(&self) -> bool {
        forall|i: int| #[trigger] self.readable_at(i)
    }

    /// `add` can store a task of `length` bytes.
    pub open spec fn add_ok(&self, length: usize) -> bool {
        self.text().add_ok(length)
    }

    /// `replace` can store a task of `length` bytes at `index`: once the old
    /// task's span is free, the buffer can place the new one.
    pub open spec fn replace_ok(&self, index: int, length: usize) -> bool {
        let s = self.text();
        add_ok_in(s.bytes(), freed(s.free_spans()@, self.ranks()[index]), s.free_spans().top(), length)
    }

    pub fn new() -> (l: List)
        ensures
            l.wf(),
            l@ == Seq::<Seq<u8>>::empty(),
            !l.is_dirty(),
            l.text().free_spans()@ == Seq::<Range>::empty(),
            l.text().free_spans().top() == 0,
    {
        List { strings: Strings::new(), rank: Vec::new(), dirty: false }
    }

    pub fn strings(&self) -> (s: &Strings)
        ensures
            *s == self.text(),
    {
        &self.strings
    }

    /// The task at `index`, if there is one.
    pub fn get(&self, index: usize) -> (r: Option<&str>)
        requires
            self.wf(),
            self.readable_at(index as int),
        ensures
            index < self@.len() ==> (r matches Some(s) && s.spec_bytes() == self@[index as int]),
            index >= self@.len() ==> r is None,
    {
        if index < self.rank.len() {
            Some(self.strings.get(self.rank[index]))
        } else {
            None
        }
    }

    /// The task that is next up: the top of the heap.
    pub fn nextup(&self) -> (r: Option<&str>)
        requires
            self.wf(),
            self.readable_at(0),
        ensures
            0 < self@.len() ==> (r matches Some(s) && s.spec_bytes() == self@[0]),
            self@.len() == 0 ==> r is None,
    {
        self.get(0)
    }

    /// Swaps the task at `index` with its parent; `false` at the root.
    pub fn promote(&mut self, index: usize) -> (b: bool)
        requires
            old(self).wf(),
            index == 0 || index < old(self)@.len(),
        ensures
            final(self).wf(),
            b == (index != 0),
            index == 0 ==> *final(self) == *old(self),
            index != 0 ==> {
                &&& final(self)@ == swapped(old(self)@, (index - 1) / 2, index as int)
                &&& final(self).ranks() == swapped(old(self).ranks(), (index - 1) / 2, index as int)
                &&& final(self).text() == old(self).text()
                &&& final(self).is_dirty()
            },
            old(self).all_readable() ==> final(self).all_readable(),
    {
        if index == 0 {
            return false;
        }
        let p = parent(index);
        let a = self.rank[p];
        let c = self.rank[index];
        self.rank.set(p, c);
        self.rank.set(index, a);
        self.dirty = true;
        proof {
            let rs0 = old(self).ranks();
            let rs1 = self.ranks();
            assert(rs1 =~= swapped(rs0, p as int, index as int));
            assert forall|i: int, j: int| 0 <= i < rs1.len() && 0 <= j < rs1.len() && i != j
                implies apart(#[trigger] rs1[i], #[trigger] rs1[j]) by {
                let oi = if i == p { index as int } else if i == index { p as int } else { i };
                let oj = if j == p { index as int } else if j == index { p as int } else { j };
                assert(rs1[i] == rs0[oi]);
                assert(rs1[j] == rs0[oj]);
            }
            assert forall|i: int| 0 <= i < rs1.len() implies {
                &&& #[trigger] rs1[i].start <= rs1[i].end <= self.text().bytes().len()
                &&& rs1[i].start < rs1[i].end ==> self.text().readable(rs1[i])
                &&& apart_from_all(self.text().free_spans()@, rs1[i])
                &&& old(self).all_readable() ==> self.text().readable(rs1[i])
            } by {
                let oi = if i == p { index as int } else if i == index { p as int } else { i };
                assert(rs1[i] == rs0[oi]);
                if old(self).all_readable() {
                    assert(old(self).readable_at(oi));
                }
            }
            if old(self).all_readable() {
                assert forall|i: int| #[trigger] self.readable_at(i) by {
                    if 0 <= i < rs1.len() {
                        assert(self.text().readable(rs1[i]));
                    }
                }
            }
            assert(self@ =~= swapped(old(self)@, p as int, index as int));
        }
        true
    }
}




impl List {
    /// Stores `string` as the last task.
    fn store(&mut self, string: &str)
        requires
            old(self).wf(),
            old(self).add_ok(string.spec_bytes().len() as usize),
        ensures
            final(self).wf(),
            final(self)@ == old(self)@.push(string.spec_bytes()),
            final(self).is_dirty() == old(self).is_dirty(),
            added(old(self).text(), final(self).text(), string.spec_bytes(), final(self).ranks().last()),
            final(self).ranks() == old(self).ranks().push(final(self).ranks().last()),
            final(self).readable_at(old(self)@.len() as int),
            forall|i: int| 0 <= i < old(self)@.len() && old(self).readable_at(i)
                && !(final(self).ranks().last().start < #[trigger] old(self).ranks()[i].start < final(self).ranks().last().end)
                ==> final(self).readable_at(i),
            !has_fit(old(self).text().free_spans()@, string.spec_bytes().len() as usize) && old(self).all_readable()
                ==> final(self).all_readable(),
    {
        let ghost s0 = self.strings;
        let ghost rs0 = self.rank@;
        let ghost v0 = self@;
        let range = self.strings.add(string);
        self.rank.push(range);
        proof {
            let s1 = self.strings;
            let rs1 = self.rank@;
            let src = string.spec_bytes();
            lemma_add_new_span(s0, s1, src, range);
            assert forall|i: int| 0 <= i < rs0.len() implies {
                &&& #[trigger] rs0[i].end <= s1.bytes().len()
                &&& apart(rs0[i], range)
                &&& apart_from_all(s1.free_spans()@, rs0[i])
                &&& s1.bytes().subrange(rs0[i].start as int, rs0[i].end as int) == s0.bytes().subrange(rs0[i].start as int, rs0[i].end as int)
                &&& rs0[i].start < rs0[i].end || range.start >= s0.bytes().len()
                    ==> !(range.start < rs0[i].start < range.end) && !(range.start < rs0[i].end < range.end)
                &&& s0.readable(rs0[i]) && !(range.start < rs0[i].start < range.end) && !(range.start < rs0[i].end < range.end)
                    ==> s1.readable(rs0[i])
            } by {
                lemma_add_keeps_span(s0, s1, src, range, rs0[i]);
            }
            assert forall|i: int| 0 <= i < rs1.len() implies {
                &&& #[trigger] rs1[i].start <= rs1[i].end <= s1.bytes().len()
                &&& rs1[i].start < rs1[i].end ==> s1.readable(rs1[i])
                &&& apart_from_all(s1.free_spans()@, rs1[i])
            } by {
                if i < rs0.len() {
                    assert(rs1[i] == rs0[i]);
                }
            }
            assert forall|i: int, j: int| 0 <= i < rs1.len() && 0 <= j < rs1.len() && i != j
                implies apart(#[trigger] rs1[i], #[trigger] rs1[j]) by {
                if i == rs0.len() {
                    assert(apart(rs0[j], range));
                } else if j == rs0.len() {
                    assert(apart(rs0[i], range));
                } else {
                    assert(apart(rs0[i], rs0[j]));
                }
            }
            assert(self@ =~= v0.push(src));
            assert forall|i: int| 0 <= i < rs0.len() && old(self).readable_at(i)
                && !(range.start < #[trigger] rs0[i].start < range.end) implies self.readable_at(i) by {
                assert(rs1[i] == rs0[i]);
                if rs0[i].start == rs0[i].end {
                    assert(!(range.start < rs0[i].end < range.end));
                }
            }
            if !has_fit(s0.free_spans()@, src.len() as usize) && old(self).all_readable() {
                assert forall|i: int| #[trigger] self.readable_at(i) by {
                    if 0 <= i < rs0.len() {
                        assert(old(self).readable_at(i));
                        assert(rs1[i] == rs0[i]);
                    }
                }
            }
        }
    }

    /// Appends `string` as the last task and hands back a cursor that will
    /// move it up towards the root.
    pub fn add<'receiver>(&'receiver mut self, string: &str) -> (c: Cursor<'receiver>)
        requires
            old(self).wf(),
            old(self).add_ok(string.spec_bytes().len() as usize),
        ensures
            (*c.list).wf(),
            (*c.list)@ == old(self)@.push(string.spec_bytes()),
            // exactly the new task joins the list
            (*c.list)@.to_multiset() == old(self)@.to_multiset().insert(string.spec_bytes()),
            (*c.list).is_dirty(),
            (*c.list).ranks() == old(self).ranks().push((*c.list).ranks().last()),
            added(old(self).text(), (*c.list).text(), string.spec_bytes(), (*c.list).ranks().last()),
            (*c.list).readable_at(old(self)@.len() as int),
            forall|i: int| 0 <= i < old(self)@.len() && old(self).readable_at(i)
                && !((*c.list).ranks().last().start < #[trigger] old(self).ranks()[i].start < (*c.list).ranks().last().end)
                ==> (*c.list).readable_at(i),
            !has_fit(old(self).text().free_spans()@, string.spec_bytes().len() as usize) && old(self).all_readable()
                ==> (*c.list).all_readable(),
            c.index == old(self)@.len(),
            c.direction == Direction::Promote,
            *final(self) == *final(c.list),
            // ranking the new task keeps an ordered heap in order
            forall|le: spec_fn(Seq<u8>, Seq<u8>) -> bool| #[trigger] heap_ordered(old(self)@, le)
                ==> session_ok((*c.list)@, le, c.index as int, c.direction),
            // at most one question per level above the new task
            questions_left((*c.list)@.len() as int, c.index as int, c.direction) == depth(old(self)@.len()),
    {
        let index = self.rank.len();
        proof {
            vstd::seq_lib::to_multiset_build(self@, string.spec_bytes());
            assert forall|le: spec_fn(Seq<u8>, Seq<u8>) -> bool| #[trigger] heap_ordered(self@, le)
                implies session_ok(self@.push(string.spec_bytes()), le, self@.len() as int, Direction::Promote) by {
                lemma_add_session(self@, string.spec_bytes(), le);
            }
        }
        self.store(string);
        self.dirty = true;
        Cursor::new(self, index, Direction::Promote)
    }
}


impl List {
    /// Removes the task at `index`: the last task takes its place, and the
    /// returned cursor settles it there, up past its parent where it ranks
    /// above it, else down the heap.
    pub fn delete<'list>(&'list mut self, index: usize) -> (r: Result<Cursor<'list>, Error>)
        requires
            old(self).wf(),
        ensures
            index >= old(self)@.len() ==> (r matches Err(e) && e.says("index out of range"@)),
            index >= old(self)@.len() ==> *final(self) == *old(self),
            index < old(self)@.len() ==> (r matches Ok(c) && {
                &&& (*c.list).wf()
                &&& (*c.list)@ == old(self)@.update(index as int, old(self)@.last()).drop_last()
                // exactly the task at `index` leaves the list
                &&& (*c.list)@.to_multiset() == old(self)@.to_multiset().remove(old(self)@[index as int])
                &&& (*c.list).is_dirty()
                &&& (*c.list).ranks() == old(self).ranks().update(index as int, old(self).ranks().last()).drop_last()
                &&& (*c.list).text().bytes() == old(self).text().bytes()
                &&& (*c.list).text().free_spans()@ == freed(old(self).text().free_spans()@, old(self).ranks()[index as int])
                &&& (*c.list).text().free_spans().top() == old(self).text().free_spans().top()
                &&& old(self).all_readable() ==> (*c.list).all_readable()
                &&& c.index == index
                // the task moved into the gap first asks about its parent,
                // unless it is at the root or the gap was at the end
                &&& c.direction == (if 0 < index < (*c.list)@.len() { Direction::Settle } else { Direction::Demote })
                &&& *final(self) == *final(c.list)
                // filling the gap keeps an ordered heap in order
                &&& forall|le: spec_fn(Seq<u8>, Seq<u8>) -> bool| preference(le) && #[trigger] heap_ordered(old(self)@, le)
                    ==> session_ok((*c.list)@, le, c.index as int, c.direction)
                &&& questions_left((*c.list)@.len() as int, c.index as int, c.direction) <= depth((old(self)@.len() - 1) as nat) + 1
            }),
    {
        if index >= self.rank.len() {
            return Err(Error::new("index out of range"));
        }
        let ghost s0 = self.strings;
        let ghost rs0 = self.rank@;
        let ghost v0 = self@;
        let t = self.rank[index];
        proof {
            assert(rs0[index as int].start <= rs0[index as int].end);
            assert(apart_from_all(s0.free_spans()@, t));
        }
        self.strings.free(t);
        self.rank.swap_remove(index);
        self.dirty = true;
        proof {
            let s1 = self.strings;
            let rs1 = self.rank@;
            let last = rs0.len() - 1;
            // the task at index `i` now is the one that was at `old_index(i)`
            assert forall|i: int| 0 <= i < rs1.len() implies #[trigger] rs1[i] == rs0[if i == index { last } else { i }] by {
            }
            assert forall|i: int| 0 <= i < rs1.len() implies {
                &&& #[trigger] rs1[i].start <= rs1[i].end <= s1.bytes().len()
                &&& rs1[i].start < rs1[i].end ==> s1.readable(rs1[i])
                &&& apart_from_all(s1.free_spans()@, rs1[i])
                &&& old(self).all_readable() ==> s1.readable(rs1[i])
            } by {
                let oi = if i == index { last } else { i };
                assert(rs1[i] == rs0[oi]);
                assert(apart(rs0[oi], t));
                assert(rs0[oi].start <= rs0[oi].end);
                lemma_free_keeps_apart(s0.free_spans()@, t, rs0[oi]);
                if old(self).all_readable() {
                    assert(old(self).readable_at(oi));
                }
            }
            if old(self).all_readable() {
                assert forall|i: int| #[trigger] self.readable_at(i) by {
                    if 0 <= i < rs1.len() {
                        assert(s1.readable(rs1[i]));
                    }
                }
            }
            assert forall|i: int, j: int| 0 <= i < rs1.len() && 0 <= j < rs1.len() && i != j
                implies apart(#[trigger] rs1[i], #[trigger] rs1[j]) by {
                let oi = if i == index { last } else { i };
                let oj = if j == index { last } else { j };
                assert(rs1[i] == rs0[oi]);
                assert(rs1[j] == rs0[oj]);
            }
            assert(self@ =~= v0.update(index as int, v0.last()).drop_last());
            lemma_delete_drops_one(v0, index as int);
            assert(pairwise_apart(s1.free_spans()@));
            assert(below(s1.free_spans()@, s1.free_spans().top()));
            assert(self.wf());
            assert forall|le: spec_fn(Seq<u8>, Seq<u8>) -> bool| preference(le) && #[trigger] heap_ordered(v0, le)
                implies session_ok(self@, le, index as int, Direction::Settle)
                && (!(0 < index < self@.len()) ==> session_ok(self@, le, index as int, Direction::Demote)) by {
                lemma_delete_session(v0, le, index as int);
            }
            let n1 = self@.len() as int;
            if n1 > 0 {
                crate::list::ranking::lemma_depth_monotone((n1 - 1) as nat, (v0.len() - 1) as nat);
            }
        }
        let direction = if 0 < index && index < self.rank.len() { Direction::Settle } else { Direction::Demote };
        Ok(Cursor::new(self, index, direction))
    }

    /// Removes the task that is next up; an empty list is an error.
    pub fn complete<'list>(&'list mut self) -> (r: Result<Cursor<'list>, Error>)
        requires
            old(self).wf(),
        ensures
            old(self)@.len() == 0 ==> (r matches Err(e) && e.says("no tasks to complete"@)),
            old(self)@.len() == 0 ==> *final(self) == *old(self),
            old(self)@.len() > 0 ==> (r matches Ok(c) && {
                &&& (*c.list).wf()
                &&& (*c.list)@ == old(self)@.update(0, old(self)@.last()).drop_last()
                // exactly the task next up leaves the list
                &&& (*c.list)@.to_multiset() == old(self)@.to_multiset().remove(old(self)@[0])
                &&& (*c.list).is_dirty()
                &&& (*c.list).ranks() == old(self).ranks().update(0, old(self).ranks().last()).drop_last()
                &&& (*c.list).text().bytes() == old(self).text().bytes()
                &&& (*c.list).text().free_spans()@ == freed(old(self).text().free_spans()@, old(self).ranks()[0])
                &&& (*c.list).text().free_spans().top() == old(self).text().free_spans().top()
                &&& old(self).all_readable() ==> (*c.list).all_readable()
                &&& c.index == 0
                &&& c.direction == Direction::Demote
                &&& *final(self) == *final(c.list)
                &&& forall|le: spec_fn(Seq<u8>, Seq<u8>) -> bool| preference(le) && #[trigger] heap_ordered(old(self)@, le)
                    ==> session_ok((*c.list)@, le, c.index as int, c.direction)
                &&& questions_left((*c.list)@.len() as int, c.index as int, c.direction) <= depth((old(self)@.len() - 1) as nat) + 1
            }),
    {
        if self.rank.is_empty() {
            return Err(Error::new("no tasks to complete"));
        }
        self.delete(0)
    }

    /// A cursor that will move the task that is next up down the heap.
    pub fn defer<'list>(&'list mut self) -> (c: Cursor<'list>)
        ensures
            *c.list == *old(self),
            c.index == 0,
            c.direction == Direction::Demote,
            *final(self) == *final(c.list),
            forall|le: spec_fn(Seq<u8>, Seq<u8>) -> bool| #[trigger] heap_ordered(old(self)@, le)
                ==> session_ok((*c.list)@, le, c.index as int, c.direction),
    {
        proof {
            assert forall|le: spec_fn(Seq<u8>, Seq<u8>) -> bool| #[trigger] heap_ordered(self@, le)
                implies session_ok(self@, le, 0, Direction::Demote) by {
                lemma_defer_session(self@, le);
            }
        }
        Cursor::new(self, 0, Direction::Demote)
    }

    /// Puts `task` in place of the task at `index`.
    pub fn replace(&mut self, index: usize, task: &str) -> (r: Result<(), Error>)
        requires
            old(self).wf(),
            index < old(self)@.len() ==> old(self).replace_ok(index as int, task.spec_bytes().len() as usize),
        ensures
            final(self).wf(),
            index >= old(self)@.len() ==> (r matches Err(e) && e.says("index out of range"@)),
            index >= old(self)@.len() ==> *final(self) == *old(self),
            index < old(self)@.len() ==> {
                &&& r is Ok
                &&& final(self)@ == old(self)@.update(index as int, task.spec_bytes())
                &&& final(self).is_dirty()
                &&& final(self).ranks() == old(self).ranks().update(index as int, final(self).ranks()[index as int])
                &&& final(self).readable_at(index as int)
                &&& forall|i: int| 0 <= i < old(self)@.len() && i != index && old(self).readable_at(i)
                    && !(final(self).ranks()[index as int].start < #[trigger] old(self).ranks()[i].start
                        < final(self).ranks()[index as int].end)
                    ==> final(self).readable_at(i)
                // the old span is handed back first, then the new task is stored
                &&& exists|mid: Strings| {
                    &&& mid.bytes() == old(self).text().bytes()
                    &&& mid.free_spans()@ == freed(old(self).text().free_spans()@, old(self).ranks()[index as int])
                    &&& mid.free_spans().top() == old(self).text().free_spans().top()
                    &&& added(mid, final(self).text(), task.spec_bytes(), final(self).ranks()[index as int])
                }
            },
    {
        if index >= self.rank.len() {
            return Err(Error::new("index out of range"));
        }
        let ghost s0 = self.strings;
        let ghost rs0 = self.rank@;
        let ghost v0 = self@;
        let old_rank = self.rank[index];
        proof {
            assert(rs0[index as int].start <= rs0[index as int].end);
            assert(apart_from_all(s0.free_spans()@, old_rank));
        }
        self.strings.free(old_rank);
        let ghost s_mid = self.strings;
        proof {
            assert forall|i: int| 0 <= i < rs0.len() && i != index
                implies apart_from_all(s_mid.free_spans()@, #[trigger] rs0[i]) by {
                assert(apart(rs0[i], old_rank));
                assert(rs0[i].start <= rs0[i].end);
                lemma_free_keeps_apart(s0.free_spans()@, old_rank, rs0[i]);
            }
        }
        let new_rank = self.strings.add(task);
        self.rank.set(index, new_rank);
        self.dirty = true;
        proof {
            let s1 = self.strings;
            let rs1 = self.rank@;
            let src = task.spec_bytes();
            lemma_add_new_span(s_mid, s1, src, new_rank);
            assert forall|i: int| 0 <= i < rs0.len() && i != index implies {
                &&& #[trigger] rs0[i].end <= s1.bytes().len()
                &&& apart(rs0[i], new_rank)
                &&& apart_from_all(s1.free_spans()@, rs0[i])
                &&& s1.bytes().subrange(rs0[i].start as int, rs0[i].end as int) == s0.bytes().subrange(rs0[i].start as int, rs0[i].end as int)
                &&& rs0[i].start < rs0[i].end ==> !(new_rank.start < rs0[i].start < new_rank.end) && !(new_rank.start < rs0[i].end < new_rank.end)
                &&& s0.readable(rs0[i]) && !(new_rank.start < rs0[i].start < new_rank.end) && !(new_rank.start < rs0[i].end < new_rank.end)
                    ==> s1.readable(rs0[i])
            } by {
                lemma_add_keeps_span(s_mid, s1, src, new_rank, rs0[i]);
            }
            assert forall|i: int| 0 <= i < rs1.len() implies {
                &&& #[trigger] rs1[i].start <= rs1[i].end <= s1.bytes().len()
                &&& rs1[i].start < rs1[i].end ==> s1.readable(rs1[i])
                &&& apart_from_all(s1.free_spans()@, rs1[i])
            } by {
                if i != index {
                    assert(rs1[i] == rs0[i]);
                }
            }
            assert forall|i: int| 0 <= i < rs0.len() && i != index && old(self).readable_at(i)
                && !(new_rank.start < #[trigger] rs0[i].start < new_rank.end) implies self.readable_at(i) by {
                assert(rs1[i] == rs0[i]);
                if rs0[i].start == rs0[i].end {
                    assert(!(new_rank.start < rs0[i].end < new_rank.end));
                }
            }
            assert forall|i: int, j: int| 0 <= i < rs1.len() && 0 <= j < rs1.len() && i != j
                implies apart(#[trigger] rs1[i], #[trigger] rs1[j]) by {
                if i == index {
                    assert(apart(rs0[j], new_rank));
                } else if j == index {
                    assert(apart(rs0[i], new_rank));
                } else {
                    assert(apart(rs0[i], rs0[j]));
                }
            }
            assert(self@ =~= v0.update(index as int, src));
            assert(rs1 =~= rs0.update(index as int, rs1[index as int]));
            assert(added(s_mid, s1, src, rs1[index as int]));
            assert(s_mid.bytes() == s0.bytes());
            assert(s_mid.free_spans()@ == freed(s0.free_spans()@, rs0[index as int]));
            assert(s_mid.free_spans().top() == s0.free_spans().top());
            assert(exists|mid: Strings| {
                &&& mid.bytes() == s0.bytes()
                &&& mid.free_spans()@ == freed(s0.free_spans()@, rs0[index as int])
                &&& mid.free_spans().top() == s0.free_spans().top()
                &&& added(mid, s1, src, rs1[index as int])
            });
        }
        Ok(())
    }
}


impl List {
    /// Walks the tasks in heap order.
    pub fn iter<'list>(&'list self) -> (it: ListIterator<'list>)
        ensures
            it.walked() == *self,
            it.position() == 0,
    {
        ListIterator::new(self)
    }
}


/// The number of UTF-8 bytes of all of `tasks`.
pub open spec fn total_bytes(tasks: Seq<String>) -> nat
    decreases tasks.len(),
{
    if tasks.len() == 0 {
        0
    } else {
        total_bytes(tasks.drop_last()) + encode_utf8(tasks.last()@).len()
    }
}

/// The bytes of the first tasks count no more than those of all.
pub proof fn lemma_total_bytes_prefix(tasks: Seq<String>, i: int)
    requires
        0 <= i <= tasks.len(),
    ensures
        total_bytes(tasks.subrange(0, i)) <= total_bytes(tasks),
        i < tasks.len() ==> total_bytes(tasks.subrange(0, i + 1))
            == total_bytes(tasks.subrange(0, i)) + encode_utf8(tasks[i]@).len(),
    decreases tasks.len(),
{
    if i < tasks.len() {
        assert(tasks.subrange(0, i + 1).drop_last() =~= tasks.subrange(0, i));
        lemma_total_bytes_prefix(tasks.drop_last(), i);
        assert(tasks.drop_last().subrange(0, i) =~= tasks.subrange(0, i));
    } else {
        assert(tasks.subrange(0, i) =~= tasks);
    }
}

impl List {
    /// A list of `tasks` in the order given, stored one after the other, not
    /// marked as changed.
    pub fn from_tasks(tasks: &Vec<String>) -> (l: List)
        requires
            total_bytes(tasks@) <= usize::MAX,
        ensures
            l.wf(),
            !l.is_dirty(),
            l.all_readable(),
            l.text().free_spans()@ == Seq::<Range>::empty(),
            // the buffer holds the tasks' bytes and nothing more
            l.text().bytes().len() == total_bytes(tasks@),
            l@.len() == tasks@.len(),
            forall|i: int| 0 <= i < tasks@.len() ==> #[trigger] l@[i] == encode_utf8(tasks@[i]@),
    {
        let mut list = List::new();
        let mut i: usize = 0;
        proof {
            assert(total_bytes(tasks@.subrange(0, 0)) == 0);
            assert forall|k: int| #[trigger] list.readable_at(k) by {}
        }
        while i < tasks.len()
            invariant
                i <= tasks@.len(),
                total_bytes(tasks@) <= usize::MAX,
                list.wf(),
                !list.is_dirty(),
                list.all_readable(),
                list.text().free_spans()@ == Seq::<Range>::empty(),
                list.text().free_spans().top() == total_bytes(tasks@.subrange(0, i as int)),
                list@.len() == i,
                forall|j: int| 0 <= j < i ==> #[trigger] list@[j] == encode_utf8(tasks@[j]@),
            decreases tasks@.len() - i,
        {
            let task = tasks[i].as_str();
            proof {
                lemma_total_bytes_prefix(tasks@, i as int);
                lemma_total_bytes_prefix(tasks@, i as int + 1);
                assert(!has_fit(Seq::<Range>::empty(), task.spec_bytes().len() as usize));
                assert(task@ == tasks@[i as int]@);
                assert(task.spec_bytes().len() == encode_utf8(tasks@[i as int]@).len());
                assert(list.text().add_ok(task.spec_bytes().len() as usize));
            }
            list.store(task);
            i = i + 1;
        }
        proof {
            assert(tasks@.subrange(0, tasks@.len() as int) =~= tasks@);
        }
        list
    }

    /// The tasks to write out, in heap order, when the list changed since it
    /// was made or loaded; `None` when there is nothing to write.
    pub fn pending_save(&self) -> (r: Option<Vec<String>>)
        requires
            self.wf(),
            self.is_dirty() ==> self.all_readable(),
        ensures
            !self.is_dirty() ==> r is None,
            self.is_dirty() ==> (r matches Some(v) && {
                &&& v@.len() == self@.len()
                &&& forall|i: int| 0 <= i < v@.len() ==> encode_utf8(#[trigger] v@[i]@) == self@[i]
            }),
    {
        if !self.dirty {
            return None;
        }
        let mut out: Vec<String> = Vec::new();
        let mut i: usize = 0;
        while i < self.rank.len()
            invariant
                self.wf(),
                self.all_readable(),
                i <= self@.len(),
                out@.len() == i,
                forall|j: int| 0 <= j < i ==> encode_utf8(#[trigger] out@[j]@) == self@[j],
            decreases self@.len() - i,
        {
            proof {
                assert(self.readable_at(i as int));
            }
            let task = self.get(i).unwrap();
            out.push(task.to_owned());
            i = i + 1;
        }
        Some(out)
    }

    /// Whether the task at `index`, if there is one, can be read.
    pub fn can_get(&self, index: usize) -> (b: bool)
        requires
            self.wf(),
        ensures
            b == self.readable_at(index as int),
    {
        if index < self.rank.len() {
            self.strings.can_get(self.rank[index])
        } else {
            true
        }
    }

    /// Whether `add` can store `task`.
    pub fn can_add(&self, task: &str) -> (b: bool)
        requires
            self.wf(),
        ensures
            b == self.add_ok(task.spec_bytes().len() as usize),
    {
        self.strings.can_add(task)
    }

    /// Whether `replace` can put `task` at `index`.
    pub fn can_replace(&self, index: usize, task: &str) -> (b: bool)
        requires
            self.wf(),
        ensures
            b == (index >= self@.len() || self.replace_ok(index as int, task.spec_bytes().len() as usize)),
    {
        if index >= self.rank.len() {
            return true;
        }
        let mut spans = self.strings.free_ranges().copy();
        proof {
            assert(self.ranks()[index as int].start <= self.ranks()[index as int].end);
        }
        spans.free(self.rank[index]);
        self.strings.place_in(&spans, task.len()).is_some()
    }
}

/// Saving and loading again gives back the same tasks: where `saved` is
/// what `pending_save` handed out for a list with tasks `before`, and
/// `after` the tasks of the list that `from_tasks` makes of `saved`, the two
/// lists hold the same tasks in the same order.
pub proof fn lemma_save_load_round_trip(saved: Seq<String>, before: Seq<Seq<u8>>, after: Seq<Seq<u8>>)
    requires
        saved.len() == before.len(),
        forall|i: int| 0 <= i < saved.len() ==> encode_utf8(#[trigger] saved[i]@) == before[i],
        after.len() == saved.len(),
        forall|i: int| 0 <= i < saved.len() ==> #[trigger] after[i] == encode_utf8(saved[i]@),
    ensures
        after == before,
{
    assert forall|i: int| 0 <= i < after.len() implies #[trigger] after[i] == before[i] by {
        assert(encode_utf8(saved[i]@) == before[i]);
    }
    assert(after =~= before);
}

impl Default for List {
    /// An empty list.
    fn default() -> (l: List)
        ensures
            l.wf(),
            l@ == Seq::<Seq<u8>>::empty(),
            !l.is_dirty(),
    {
        List::new()
    }
}

/// Swapping two tasks keeps the same tasks: what the ranking moves do to
/// the list.
pub proof fn lemma_swapped_same_tasks<A>(s: Seq<A>, i: int, j: int)
    requires
        0 <= i < s.len(),
        0 <= j < s.len(),
    ensures
        swapped(s, i, j).to_multiset() == s.to_multiset(),
{
    broadcast use vstd::multiset::group_multiset_axioms;
    let u = s.update(i, s[j]);
    vstd::seq_lib::to_multiset_update(s, i, s[j]);
    vstd::seq_lib::to_multiset_update(u, j, s[i]);
    vstd::seq_lib::to_multiset_contains(s, s[i]);
    vstd::seq_lib::to_multiset_contains(s, s[j]);
    if i == j {
        assert(swapped(s, i, j) =~= s);
    } else {
        assert(u[j] == s[j]);
        assert(swapped(s, i, j).to_multiset() =~= s.to_multiset());
    }
}

/// Removing the task at `i` by moving the last task into its place drops
/// exactly that task.
pub proof fn lemma_delete_drops_one<A>(s: Seq<A>, i: int)
    requires
        0 <= i < s.len(),
    ensures
        s.update(i, s.last()).drop_last().to_multiset() == s.to_multiset().remove(s[i]),
{
    broadcast use vstd::multiset::group_multiset_axioms;
    let u = s.update(i, s.last());
    vstd::seq_lib::to_multiset_update(s, i, s.last());
    vstd::seq_lib::to_multiset_contains(s, s[i]);
    vstd::seq_lib::to_multiset_remove(u, u.len() - 1);
    assert(u.remove(u.len() - 1) =~= u.drop_last());
    assert(u[u.len() - 1] == s.last());
    assert(u.drop_last().to_multiset() =~= s.to_multiset().remove(s[i]));
}

/// The number of steps from node `i` up to the root.
pub open spec fn depth(i: nat) -> nat
    decreases i,
{
    if i == 0 {
        0
    } else {
        1 + depth(((i - 1) / 2) as nat)
    }
}

/// Level `d` of the heap holds the indices from `2^d - 1` to `2^(d+1) - 2`:
/// the task next up alone, then the next two, then the next four, and so on.
/// So a task moves at most about `log2(n)` times in a list of `n` tasks, and
/// a ranking session asks about that many questions.
pub proof fn lemma_depth_log(i: nat)
    ensures
        vstd::arithmetic::power2::pow2(depth(i)) <= i + 1,
        i + 1 < vstd::arithmetic::power2::pow2(depth(i) + 1),
    decreases i,
{
    vstd::arithmetic::power2::lemma_pow2_unfold(depth(i) + 1);
    if i > 0 {
        let p = ((i - 1) / 2) as nat;
        lemma_depth_log(p);
        vstd::arithmetic::power2::lemma_pow2_unfold(depth(i));
    } else {
        vstd::arithmetic::power2::lemma_pow2(0);
        vstd::arithmetic::power::lemma_pow0(2);
    }
}

/// Moving up goes one level nearer the root; moving down goes one level
/// further from it.
pub proof fn lemma_depth_steps(i: nat)
    ensures
        i > 0 ==> depth(((i - 1) / 2) as nat) + 1 == depth(i),
        depth(2 * i + 1) == depth(i) + 1,
        depth(2 * i + 2) == depth(i) + 1,
{
    assert((((2 * i + 1) - 1) / 2) as nat == i);
    assert((((2 * i + 2) - 1) / 2) as nat == i);
}

/// A span that shares no offset with any span of `rs` shares none with any
/// offset that `rs` covers.
pub proof fn lemma_apart_from_covered(rs: Seq<Range>, q: Range)
    requires
        forward(rs),
        q.start <= q.end,
    ensures
        apart_from_all(rs, q) <==> (forall|p: int| !(#[trigger] q.covers(p) && covered(rs).contains(p))),
{
    if apart_from_all(rs, q) {
        assert forall|p: int| !(#[trigger] q.covers(p) && covered(rs).contains(p)) by {
            if q.covers(p) && covered(rs).contains(p) {
                let k = choose|k: int| 0 <= k < rs.len() && #[trigger] rs[k].covers(p);
                assert(apart(q, rs[k]));
                lemma_apart_iff_disjoint(q, rs[k]);
            }
        }
    }
    if forall|p: int| !(#[trigger] q.covers(p) && covered(rs).contains(p)) {
        assert forall|i: int| 0 <= i < rs.len() implies apart(q, #[trigger] rs[i]) by {
            lemma_apart_iff_disjoint(q, rs[i]);
            assert forall|p: int| !(#[trigger] q.covers(p) && rs[i].covers(p)) by {
                if q.covers(p) && rs[i].covers(p) {
                    assert(covered(rs).contains(p));
                }
            }
        }
    }
}

/// A span kept apart from the free spans and from a span handed back stays
/// apart from the free spans once that span is free.
pub proof fn lemma_free_keeps_apart(fs: Seq<Range>, t: Range, q: Range)
    requires
        forward(fs),
        t.start <= t.end,
        q.start <= q.end,
        apart(q, t),
        apart_from_all(fs, q),
    ensures
        apart_from_all(freed(fs, t), q),
{
    lemma_freed_covered(fs, t);
    lemma_apart_from_covered(fs, q);
    lemma_apart_from_covered(freed(fs, t), q);
    lemma_apart_iff_disjoint(q, t);
    assert forall|p: int| !(#[trigger] q.covers(p) && covered(freed(fs, t)).contains(p)) by {
        if q.covers(p) && covered(freed(fs, t)).contains(p) {
            assert(covered(fs).union(t.span()).contains(p));
        }
    }
}

/// What `add` does to a span that holds a stored string: the span stays
/// apart from the span that `add` filled and from the free spans, and its
/// bytes stay as they are. A non-empty span, or any span where the buffer
/// only grew, holds no end inside the filled span, and a span with no end
/// inside it stays readable.
pub proof fn lemma_add_keeps_span(s0: Strings, s1: Strings, src: Seq<u8>, r: Range, q: Range)
    requires
        s0.wf(),
        s1.wf(),
        s0.free_spans().wf(),
        added(s0, s1, src, r),
        pairwise_apart(s0.free_spans()@),
        below(s0.free_spans()@, s0.free_spans().top()),
        q.start <= q.end <= s0.bytes().len(),
        apart_from_all(s0.free_spans()@, q),
    ensures
        q.end <= s1.bytes().len(),
        apart(q, r),
        apart_from_all(s1.free_spans()@, q),
        s1.bytes().subrange(q.start as int, q.end as int) == s0.bytes().subrange(q.start as int, q.end as int),
        q.start < q.end || r.start >= s0.bytes().len() ==> !(r.start < q.start < r.end) && !(r.start < q.end < r.end),
        s0.readable(q) && !(r.start < q.start < r.end) && !(r.start < q.end < r.end) ==> s1.readable(q),
{
    let b0 = s0.bytes();
    let b1 = s1.bytes();
    let fs = s0.free_spans()@;
    let length = src.len() as usize;
    if has_fit(fs, length) {
        let i = best_fit(fs, length);
        assert(crate::range::is_best_fit(fs, length, i)) by {
            crate::range::lemma_has_fit_best(fs, length);
        }
        lemma_taken(fs, i, length);
        assert(apart(q, fs[i]));
        assert(apart(q, r));
        let tk = taken(fs, i, length);
        assert forall|k: int| 0 <= k < tk.len() implies apart(q, #[trigger] tk[k]) by {
            if fs[i].start + length == fs[i].end {
                if k < i {
                    assert(tk[k] == fs[k]);
                } else {
                    assert(tk[k] == fs[k + 1]);
                }
            } else if k != i {
                assert(tk[k] == fs[k]);
            }
        }
    } else {
        assert(r.start == s0.free_spans().top());
        assert(apart(q, r));
    }
    assert forall|p: int| q.start <= p < q.end implies #[trigger] b1[p] == b0[p] by {
        lemma_apart_iff_disjoint(q, r);
        assert(q.covers(p));
    }
    assert(b1.subrange(q.start as int, q.end as int) =~= b0.subrange(q.start as int, q.end as int));
    if s0.readable(q) && !(r.start < q.start < r.end) && !(r.start < q.end < r.end) {
        // boundaries are decided byte by byte
        crate::strings::lemma_boundary_local(b0, q.start as int);
        crate::strings::lemma_boundary_local(b0, q.end as int);
        crate::strings::lemma_boundary_local(b1, q.start as int);
        crate::strings::lemma_boundary_local(b1, q.end as int);
        crate::strings::lemma_boundary_local(b1, r.start as int);
        crate::strings::lemma_boundary_in_range(b1, r.start as int);
        if q.start < b0.len() && !r.covers(q.start as int) {
            assert(b1[q.start as int] == b0[q.start as int]);
        }
        if q.end < b0.len() && !r.covers(q.end as int) {
            assert(b1[q.end as int] == b0[q.end as int]);
        }
    }
}

/// What `add` does to the span it fills: it is readable and apart from the
/// free spans, which stay apart from each other and below the end.
pub proof fn lemma_add_new_span(s0: Strings, s1: Strings, src: Seq<u8>, r: Range)
    requires
        s0.wf(),
        s1.wf(),
        s0.free_spans().wf(),
        added(s0, s1, src, r),
        pairwise_apart(s0.free_spans()@),
        below(s0.free_spans()@, s0.free_spans().top()),
    ensures
        s1.readable(r),
        apart_from_all(s1.free_spans()@, r),
        pairwise_apart(s1.free_spans()@),
        below(s1.free_spans()@, s1.free_spans().top()),
{
    let fs = s0.free_spans()@;
    let length = src.len() as usize;
    if has_fit(fs, length) {
        let i = best_fit(fs, length);
        crate::range::lemma_has_fit_best(fs, length);
        lemma_taken(fs, i, length);
        let tk = taken(fs, i, length);
        assert forall|k: int| 0 <= k < tk.len() implies apart(r, #[trigger] tk[k]) by {
            if fs[i].start + length == fs[i].end {
                if k < i {
                    assert(tk[k] == fs[k]);
                    assert(apart(fs[k], fs[i]));
                } else {
                    assert(tk[k] == fs[k + 1]);
                    assert(apart(fs[k + 1], fs[i]));
                }
            } else if k != i {
                assert(tk[k] == fs[k]);
                assert(apart(fs[k], fs[i]));
            }
        }
    } else {
        assert forall|k: int| 0 <= k < fs.len() implies apart(r, #[trigger] fs[k]) by {
            assert(fs[k].end <= s0.free_spans().top());
        }
    }
}

} // verus!
