use vstd::prelude::*;
use vstd::string::*;
use crate::error::Error;
use crate::list::{List, Direction, swapped, parent, left, right, lemma_swapped_same_tasks, lemma_depth_steps};
use crate::list::ranking::{
    preference, session_ok, heap_ordered, asks_parent, asks_children, demotes, preferred_at, questions_left,
    lemma_questions_left, lemma_depth_monotone, lemma_up_stay, lemma_up_move, lemma_down_stay, lemma_down_move,
    lemma_session_done,
};

verus! {

/// A position in a list during a ranking session: the task at `index` moves
/// up (`Promote`), down (`Demote`), or first up and else down (`Settle`) the
/// heap as the user compares it with its neighbours.
pub struct Cursor<'list> {
    pub list: &'list mut List,
    pub index: usize,
    pub direction: Direction,
}

/// `after` is `before` with the tasks at `p` and `c` swapped, and marked as
/// changed.
pub open spec fn moved(before: List, after: List, p: int, c: int) -> bool {
    &&& after@ == swapped(before@, p, c)
    &&& after.ranks() == swapped(before.ranks(), p, c)
    &&& after.text() == before.text()
    &&& after.is_dirty()
}

/// A move of the cursor keeps the same tasks: only their places change.
pub proof fn lemma_moved_same_tasks(before: List, after: List, p: int, c: int)
    requires
        moved(before, after, p, c),
        0 <= p < before@.len(),
        0 <= c < before@.len(),
    ensures
        after@.to_multiset() == before@.to_multiset(),
{
    lemma_swapped_same_tasks(before@, p, c);
}

impl<'list> Cursor<'list> {
    /// The list as it stands.
    pub open spec fn current(&self) -> List {
        *self.list
    }

    pub fn new(list: &'list mut List, index: usize, direction: Direction) -> (c: Cursor<'list>)
        ensures
            *c.list == *old(list),
            c.index == index,
            c.direction == direction,
            *final(list) == *final(c.list),
    {
        Cursor { list, index, direction }
    }

    /// The texts to compare when moving up: the parent's task and this one;
    /// nothing at the root.
    pub fn strings_for_promotion(&self) -> (r: Option<(&str, &str, Option<&str>)>)
        requires
            self.current().wf(),
            self.index == 0 || self.index < self.current()@.len(),
            self.index != 0 ==> self.current().readable_at((self.index - 1) / 2)
                && self.current().readable_at(self.index as int),
        ensures
            self.index == 0 ==> r is None,
            self.index != 0 ==> (r matches Some((a, b, c)) && {
                &&& a.spec_bytes() == self.current()@[(self.index - 1) / 2]
                &&& b.spec_bytes() == self.current()@[self.index as int]
                &&& c is None
            }),
    {
        if self.index == 0 {
            return None;
        }
        let parent = parent(self.index);
        Some((self.list.get(parent).unwrap(), self.list.get(self.index).unwrap(), None))
    }

    /// Moves the task one level up: swaps it with its parent and follows it.
    pub fn promote(&mut self) -> (b: bool)
        requires
            (*old(self).list).wf(),
            old(self).index == 0 || old(self).index < (*old(self).list)@.len(),
        ensures
            (*final(self).list).wf(),
            final(self).direction == old(self).direction,
            b == (old(self).index != 0),
            old(self).index == 0 ==> *final(self).list == *old(self).list && final(self).index == 0,
            old(self).index != 0 ==> moved(*old(self).list, *final(self).list, (old(self).index - 1) / 2, old(self).index as int)
                && final(self).index == (old(self).index - 1) / 2,
    {
        if self.index == 0 {
            return false;
        }
        let child = self.index;
        self.index = parent(self.index);
        self.list.promote(child)
    }

    /// What to compare when moving down: the task at the cursor and its
    /// children; nothing when it has none.
    pub fn strings_for_demotion(&self) -> (r: Option<(&str, &str, Option<&str>)>)
        requires
            self.current().wf(),
            self.index * 2 + 2 <= usize::MAX,
            self.index * 2 + 1 < self.current()@.len() ==> self.current().readable_at(self.index as int)
                && self.current().readable_at(self.index * 2 + 1) && self.current().readable_at(self.index * 2 + 2),
        ensures
            self.index * 2 + 1 >= self.current()@.len() ==> r is None,
            self.index * 2 + 1 < self.current()@.len() ==> (r matches Some((a, b, c)) && {
                &&& a.spec_bytes() == self.current()@[self.index as int]
                &&& b.spec_bytes() == self.current()@[self.index * 2 + 1]
                &&& self.index * 2 + 2 >= self.current()@.len() ==> c is None
                &&& self.index * 2 + 2 < self.current()@.len() ==> (c matches Some(d)
                    && d.spec_bytes() == self.current()@[self.index * 2 + 2])
            }),
    {
        let left = left(self.index);
        let right = right(self.index);
        if left >= self.list.rank.len() {
            return None;
        }
        let left = self.list.get(left).unwrap();
        if right >= self.list.rank.len() {
            return Some((self.list.get(self.index).unwrap(), left, None));
        }
        let right = self.list.get(right).unwrap();
        Some((self.list.get(self.index).unwrap(), left, Some(right)))
    }

    /// Moves the task one level down to the left: swaps it with its left
    /// child and follows it.
    pub fn demote_left(&mut self) -> (b: bool)
        requires
            (*old(self).list).wf(),
            old(self).index * 2 + 1 < (*old(self).list)@.len(),
            old(self).index * 2 + 1 <= usize::MAX,
        ensures
            (*final(self).list).wf(),
            final(self).direction == old(self).direction,
            b,
            final(self).index == old(self).index * 2 + 1,
            moved(*old(self).list, *final(self).list, old(self).index as int, old(self).index * 2 + 1),
    {
        self.index = left(self.index);
        self.list.promote(self.index)
    }

    /// Moves the task one level down to the right: swaps it with its right
    /// child and follows it.
    pub fn demote_right(&mut self) -> (b: bool)
        requires
            (*old(self).list).wf(),
            old(self).index * 2 + 2 < (*old(self).list)@.len(),
            old(self).index * 2 + 2 <= usize::MAX,
        ensures
            (*final(self).list).wf(),
            final(self).direction == old(self).direction,
            b,
            final(self).index == old(self).index * 2 + 2,
            moved(*old(self).list, *final(self).list, old(self).index as int, old(self).index * 2 + 2),
    {
        self.index = right(self.index);
        self.list.promote(self.index)
    }

    /// The texts to compare next: the parent's task and this one when the
    /// task asks about its parent, else the task and its children; `None`
    /// when the task cannot move further.
    pub fn strings(&self) -> (r: Option<(&str, &str, Option<&str>)>)
        requires
            self.current().wf(),
            self.direction == Direction::Promote ==> self.index == 0 || self.index < self.current()@.len(),
            asks_parent(self.current()@.len() as int, self.index as int, self.direction)
                ==> self.current().readable_at((self.index - 1) / 2) && self.current().readable_at(self.index as int),
            demotes(self.current()@.len() as int, self.index as int, self.direction) ==> self.index * 2 + 2 <= usize::MAX,
            asks_children(self.current()@.len() as int, self.index as int, self.direction)
                ==> self.current().readable_at(self.index as int) && self.current().readable_at(self.index * 2 + 1)
                && self.current().readable_at(self.index * 2 + 2),
        ensures
            asks_parent(self.current()@.len() as int, self.index as int, self.direction) ==> (r matches Some((a, b, c)) && {
                &&& a.spec_bytes() == self.current()@[(self.index - 1) / 2]
                &&& b.spec_bytes() == self.current()@[self.index as int]
                &&& c is None
            }),
            asks_children(self.current()@.len() as int, self.index as int, self.direction) ==> (r matches Some((a, b, c)) && {
                &&& a.spec_bytes() == self.current()@[self.index as int]
                &&& b.spec_bytes() == self.current()@[self.index * 2 + 1]
                &&& self.index * 2 + 2 >= self.current()@.len() ==> c is None
                &&& self.index * 2 + 2 < self.current()@.len() ==> (c matches Some(d)
                    && d.spec_bytes() == self.current()@[self.index * 2 + 2])
            }),
            r is None <==> !asks_parent(self.current()@.len() as int, self.index as int, self.direction)
                && !asks_children(self.current()@.len() as int, self.index as int, self.direction),
            // a question is asked only while some are left
            r is Some ==> questions_left(self.current()@.len() as int, self.index as int, self.direction) >= 1,
    {
        proof {
            lemma_questions_left(self.current()@.len() as int, self.index as int, self.direction);
        }
        let up = match self.direction {
            Direction::Promote => true,
            Direction::Settle => 0 < self.index && self.index < self.list.rank.len(),
            Direction::Demote => false,
        };
        if up {
            self.strings_for_promotion()
        } else {
            self.strings_for_demotion()
        }
    }

    /// Acts on the user's answer to the question the cursor asked, `choice`
    /// being the index of the most urgent text shown: `0` keeps the task
    /// where it is; `1` moves it up (or down to the left); `2` moves it down
    /// to the right. Settling, a task kept below its parent goes on to move
    /// down. Returns whether the session goes on.
    pub fn make_choice(&mut self, choice: i32) -> (r: Result<bool, Error>)
        requires
            (*old(self).list).wf(),
            choice == 1 && old(self).direction == Direction::Promote
                ==> old(self).index == 0 || old(self).index < (*old(self).list)@.len(),
            choice == 1 && demotes((*old(self).list)@.len() as int, old(self).index as int, old(self).direction)
                ==> old(self).index * 2 + 1 < (*old(self).list)@.len() && old(self).index * 2 + 1 <= usize::MAX,
            choice == 2 && demotes((*old(self).list)@.len() as int, old(self).index as int, old(self).direction)
                ==> old(self).index * 2 + 2 < (*old(self).list)@.len() && old(self).index * 2 + 2 <= usize::MAX,
        ensures
            (*final(self).list).wf(),
            (*final(self).list)@.len() == (*old(self).list)@.len(),
            old(self).direction == Direction::Promote ==> final(self).direction == Direction::Promote
                && up_step(*old(self).list, old(self).index, choice, r, *final(self).list, final(self).index),
            demotes((*old(self).list)@.len() as int, old(self).index as int, old(self).direction)
                ==> final(self).direction == Direction::Demote
                && down_step(*old(self).list, old(self).index, choice, r, *final(self).list, final(self).index),
            old(self).direction == Direction::Settle && 0 < old(self).index < (*old(self).list)@.len() ==> {
                &&& choice == 0 ==> {
                    &&& r == Ok::<bool, Error>(old(self).index * 2 + 1 < (*old(self).list)@.len())
                    &&& *final(self).list == *old(self).list
                    &&& final(self).index == old(self).index
                    &&& final(self).direction == Direction::Demote
                }
                &&& choice == 1 ==> {
                    &&& r == Ok::<bool, Error>(true)
                    &&& moved(*old(self).list, *final(self).list, (old(self).index - 1) / 2, old(self).index as int)
                    &&& final(self).index == (old(self).index - 1) / 2
                    &&& final(self).direction == Direction::Promote
                }
                &&& choice != 0 && choice != 1 ==> {
                    &&& r matches Err(e) && e.says("Invalid choice"@)
                    &&& *final(self).list == *old(self).list
                    &&& final(self).index == old(self).index
                    &&& final(self).direction == old(self).direction
                }
            },
            // whatever the answer, no task is lost or added
            (*final(self).list)@.to_multiset() == (*old(self).list)@.to_multiset(),
            // a move leaves fewer questions to ask
            r == Ok::<bool, Error>(true) ==> 0 <= questions_left((*final(self).list)@.len() as int, final(self).index as int, final(self).direction)
                < questions_left((*old(self).list)@.len() as int, old(self).index as int, old(self).direction),
            // answering as a preference ranks the tasks keeps the heap in order
            // around the cursor, and in order once the session ends
            forall|le: spec_fn(Seq<u8>, Seq<u8>) -> bool|
                preference(le) && #[trigger] session_ok((*old(self).list)@, le, old(self).index as int, old(self).direction)
                && old(self).index < (*old(self).list)@.len()
                && (asks_parent((*old(self).list)@.len() as int, old(self).index as int, old(self).direction)
                    || asks_children((*old(self).list)@.len() as int, old(self).index as int, old(self).direction))
                && choice == preferred_at((*old(self).list)@, le, old(self).index as int, old(self).direction)
                ==> session_ok((*final(self).list)@, le, final(self).index as int, final(self).direction)
                && (r == Ok::<bool, Error>(false) ==> heap_ordered((*final(self).list)@, le)),
    {
        let ghost before = *self.list;
        let ghost t = before@;
        let ghost i = self.index as int;
        let ghost d = self.direction;
        let n = self.list.rank.len();
        let settle_up = match self.direction {
            Direction::Settle => 0 < self.index && self.index < n,
            _ => false,
        };
        let r = if settle_up {
            match choice {
                0 => {
                    self.direction = Direction::Demote;
                    Ok(n >= 2 && self.index <= (n - 2) / 2)
                },
                1 => {
                    self.direction = Direction::Promote;
                    Ok(self.promote())
                },
                _ => Err(Error::new("Invalid choice")),
            }
        } else {
            if let Direction::Settle = self.direction {
                self.direction = Direction::Demote;
            }
            match choice {
                0 => Ok(false),
                1 => match self.direction {
                    Direction::Promote => Ok(self.promote()),
                    _ => Ok(self.demote_left()),
                },
                2 => match self.direction {
                    Direction::Promote => Err(Error::new("Invalid choice")),
                    _ => Ok(self.demote_right()),
                },
                _ => Err(Error::new("Invalid choice")),
            }
        };
        proof {
            let t1 = (*self.list)@;
            if (choice == 1 && asks_parent(n as int, i, d)) {
                lemma_moved_same_tasks(before, *self.list, (i - 1) / 2, i);
            } else if choice == 1 && demotes(n as int, i, d) {
                lemma_moved_same_tasks(before, *self.list, i, i * 2 + 1);
            } else if choice == 2 && demotes(n as int, i, d) {
                lemma_moved_same_tasks(before, *self.list, i, i * 2 + 2);
            }
            if i > 0 {
                lemma_depth_steps(i as nat);
            }
            lemma_depth_steps(i as nat);
            lemma_questions_left(n as int, self.index as int, self.direction);
            if i < n {
                lemma_depth_monotone(i as nat, (n - 1) as nat);
            }
            assert forall|le: spec_fn(Seq<u8>, Seq<u8>) -> bool|
                preference(le) && #[trigger] session_ok(t, le, i, d)
                && i < n
                && (asks_parent(n as int, i, d) || asks_children(n as int, i, d))
                && choice == preferred_at(t, le, i, d)
                implies session_ok(t1, le, self.index as int, self.direction)
                && (r == Ok::<bool, Error>(false) ==> heap_ordered(t1, le)) by {
                if asks_parent(n as int, i, d) {
                    if choice == 0 {
                        lemma_up_stay(t, le, i, d);
                        if d == Direction::Settle && !(i * 2 + 1 < n) {
                            lemma_session_done(t, le, i, Direction::Demote);
                        }
                    } else {
                        lemma_up_move(t, le, i, d);
                    }
                } else {
                    let l = 2 * i + 1;
                    let rt = 2 * i + 2;
                    if choice == 0 {
                        lemma_down_stay(t, le, i, d);
                    } else if choice == 1 {
                        lemma_down_move(t, le, i, d, l, rt);
                    } else {
                        assert(le(t[rt], t[l]));
                        assert(le(t[rt], t[i])) by {
                            if le(t[i], t[l]) {
                                assert(!le(t[i], t[rt]));
                            }
                        }
                        lemma_down_move(t, le, i, d, rt, l);
                    }
                }
            }
        }
        r
    }
}

/// What a cursor moving up does with `choice`: `before` becomes `after`, its
/// index `i` becomes `j`, and `r` is returned.
pub open spec fn up_step(before: List, i: usize, choice: i32, r: Result<bool, Error>, after: List, j: usize) -> bool {
    if choice == 0 {
        r == Ok::<bool, Error>(false) && after == before && j == i
    } else if choice == 1 {
        &&& r == Ok::<bool, Error>(i != 0)
        &&& i == 0 ==> after == before && j == 0
        &&& i != 0 ==> moved(before, after, (i - 1) / 2, i as int) && j == (i - 1) / 2
    } else {
        r matches Err(e) && e.says("Invalid choice"@) && after == before && j == i
    }
}

/// What a cursor moving down does with `choice`.
pub open spec fn down_step(before: List, i: usize, choice: i32, r: Result<bool, Error>, after: List, j: usize) -> bool {
    if choice == 0 {
        r == Ok::<bool, Error>(false) && after == before && j == i
    } else if choice == 1 {
        r == Ok::<bool, Error>(true) && j == i * 2 + 1 && moved(before, after, i as int, i * 2 + 1)
    } else if choice == 2 {
        r == Ok::<bool, Error>(true) && j == i * 2 + 2 && moved(before, after, i as int, i * 2 + 2)
    } else {
        r matches Err(e) && e.says("Invalid choice"@) && after == before && j == i
    }
}

} // verus!
