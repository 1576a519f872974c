use vstd::prelude::*;
use crate::list::{Direction, swapped, depth, lemma_depth_steps};

verus! {

/// `le(a, b)`: task `a` is at least as urgent as task `b`. A preference
/// ranks any two tasks one way or the other, and does so transitively.
pub open spec fn preference(le: spec_fn(Seq<u8>, Seq<u8>) -> bool) -> bool {
    &&& forall|a: Seq<u8>, b: Seq<u8>| #[trigger] le(a, b) || le(b, a)
    &&& forall|a: Seq<u8>, b: Seq<u8>, c: Seq<u8>| #[trigger] le(a, b) && #[trigger] le(b, c) ==> le(a, c)
}

/// The parent of the task at `k` is at least as urgent as it.
pub open spec fn ordered_at(t: Seq<Seq<u8>>, le: spec_fn(Seq<u8>, Seq<u8>) -> bool, k: int) -> bool {
    le(t[(k - 1) / 2], t[k])
}

/// Every task is at least as urgent as its children: the heap is in order.
pub open spec fn heap_ordered(t: Seq<Seq<u8>>, le: spec_fn(Seq<u8>, Seq<u8>) -> bool) -> bool {
    forall|k: int| 1 <= k < t.len() ==> #[trigger] ordered_at(t, le, k)
}

/// The parent of `c` is at least as urgent as the children of `c`.
pub open spec fn bridged(t: Seq<Seq<u8>>, le: spec_fn(Seq<u8>, Seq<u8>) -> bool, c: int) -> bool {
    c > 0 ==> {
        &&& 2 * c + 1 < t.len() ==> le(t[(c - 1) / 2], t[2 * c + 1])
        &&& 2 * c + 2 < t.len() ==> le(t[(c - 1) / 2], t[2 * c + 2])
    }
}

/// The heap is in order but around the task at `c`, which a ranking session
/// in direction `d` is moving: moving up, only the task's link to its parent
/// may be out of order; moving down, only its links to its children; settling
/// into a gap, both. Its parent is at least as urgent as its children.
pub open spec fn session_ok(t: Seq<Seq<u8>>, le: spec_fn(Seq<u8>, Seq<u8>) -> bool, c: int, d: Direction) -> bool {
    &&& forall|k: int| 1 <= k < t.len() && k != c && (k - 1) / 2 != c ==> #[trigger] ordered_at(t, le, k)
    &&& d == Direction::Promote ==> {
        &&& 2 * c + 1 < t.len() ==> ordered_at(t, le, 2 * c + 1)
        &&& 2 * c + 2 < t.len() ==> ordered_at(t, le, 2 * c + 2)
    }
    &&& d == Direction::Demote ==> (1 <= c < t.len() ==> ordered_at(t, le, c))
    &&& bridged(t, le, c)
}

/// A cursor at `c` in direction `d`, in a list of `n` tasks, asks about the
/// task and its parent.
pub open spec fn asks_parent(n: int, c: int, d: Direction) -> bool {
    ||| d == Direction::Promote && c != 0
    ||| d == Direction::Settle && 0 < c < n
}

/// A cursor at `c` in direction `d` moves its task down (if at all).
pub open spec fn demotes(n: int, c: int, d: Direction) -> bool {
    ||| d == Direction::Demote
    ||| d == Direction::Settle && !(0 < c < n)
}

/// A cursor at `c` in direction `d`, in a list of `n` tasks, asks about the
/// task and its children.
pub open spec fn asks_children(n: int, c: int, d: Direction) -> bool {
    demotes(n, c, d) && 2 * c + 1 < n
}

/// The answer that names the most urgent of the texts shown (the first
/// shown where several are as urgent): the index into the tuple that
/// `Cursor::strings` returns.
pub open spec fn preferred_at(t: Seq<Seq<u8>>, le: spec_fn(Seq<u8>, Seq<u8>) -> bool, c: int, d: Direction) -> i32 {
    if asks_parent(t.len() as int, c, d) {
        if le(t[(c - 1) / 2], t[c]) { 0 } else { 1 }
    } else if le(t[c], t[2 * c + 1]) && (2 * c + 2 < t.len() ==> le(t[c], t[2 * c + 2])) {
        0
    } else if 2 * c + 2 < t.len() ==> le(t[2 * c + 1], t[2 * c + 2]) {
        1
    } else {
        2
    }
}

/// An upper bound on the questions a session at `c` in direction `d` still
/// asks in a list of `n` tasks: the levels left to climb or to descend.
pub open spec fn questions_left(n: int, c: int, d: Direction) -> int {
    if d == Direction::Promote {
        depth(c as nat) as int
    } else if d == Direction::Settle && 0 < c < n {
        depth((n - 1) as nat) + 1int
    } else if 0 <= c < n {
        depth((n - 1) as nat) - depth(c as nat)
    } else {
        0
    }
}

/// Levels grow with the index.
pub proof fn lemma_depth_monotone(i: nat, j: nat)
    requires
        i <= j,
    ensures
        depth(i) <= depth(j),
    decreases j,
{
    if i > 0 {
        lemma_depth_monotone(((i - 1) / 2) as nat, ((j - 1) / 2) as nat);
    }
}

/// A session never has fewer than no questions left, and has one left
/// whenever it asks one.
pub proof fn lemma_questions_left(n: int, c: int, d: Direction)
    requires
        0 <= c,
    ensures
        questions_left(n, c, d) >= 0,
        asks_parent(n, c, d) || asks_children(n, c, d) ==> questions_left(n, c, d) >= 1,
{
    if 0 <= c < n {
        lemma_depth_monotone(c as nat, (n - 1) as nat);
    }
    if c > 0 {
        lemma_depth_steps(c as nat);
    }
    if asks_children(n, c, d) && d != Direction::Promote && !(d == Direction::Settle && 0 < c < n) {
        lemma_depth_steps(c as nat);
        lemma_depth_monotone((2 * c + 1) as nat, (n - 1) as nat);
    }
}

/// The task next up in an ordered heap is at least as urgent as every task.
pub proof fn lemma_top_is_most_urgent(t: Seq<Seq<u8>>, le: spec_fn(Seq<u8>, Seq<u8>) -> bool, k: int)
    requires
        preference(le),
        heap_ordered(t, le),
        0 <= k < t.len(),
    ensures
        le(t[0], t[k]),
    decreases k,
{
    if k == 0 {
        assert(le(t[0], t[0]) || le(t[0], t[0]));
    } else {
        let p = (k - 1) / 2;
        lemma_top_is_most_urgent(t, le, p);
        assert(ordered_at(t, le, k));
    }
}

/// A session that has nothing left to ask leaves the heap in order.
pub proof fn lemma_session_done(t: Seq<Seq<u8>>, le: spec_fn(Seq<u8>, Seq<u8>) -> bool, c: int, d: Direction)
    requires
        0 <= c,
        session_ok(t, le, c, d),
        !asks_parent(t.len() as int, c, d),
        !asks_children(t.len() as int, c, d),
    ensures
        heap_ordered(t, le),
{
    assert forall|k: int| 1 <= k < t.len() implies #[trigger] ordered_at(t, le, k) by {
        if k == c || (k - 1) / 2 == c {
        }
    }
}

/// A task that stays below its parent: moving up, the heap is in order;
/// settling, the task goes on down.
pub proof fn lemma_up_stay(t: Seq<Seq<u8>>, le: spec_fn(Seq<u8>, Seq<u8>) -> bool, c: int, d: Direction)
    requires
        session_ok(t, le, c, d),
        asks_parent(t.len() as int, c, d),
        0 < c < t.len(),
        le(t[(c - 1) / 2], t[c]),
    ensures
        d == Direction::Promote ==> heap_ordered(t, le),
        d == Direction::Settle ==> session_ok(t, le, c, Direction::Demote),
{
    assert(ordered_at(t, le, c));
    if d == Direction::Promote {
        assert forall|k: int| 1 <= k < t.len() implies #[trigger] ordered_at(t, le, k) by {
            if k == c || (k - 1) / 2 == c {
            }
        }
    }
}

/// A task that ranks above its parent swaps with it, and the session goes
/// on up from the parent's place.
pub proof fn lemma_up_move(t: Seq<Seq<u8>>, le: spec_fn(Seq<u8>, Seq<u8>) -> bool, c: int, d: Direction)
    requires
        preference(le),
        session_ok(t, le, c, d),
        0 < c < t.len(),
        !le(t[(c - 1) / 2], t[c]),
    ensures
        session_ok(swapped(t, (c - 1) / 2, c), le, (c - 1) / 2, Direction::Promote),
{
    let p = (c - 1) / 2;
    let t2 = swapped(t, p, c);
    let n = t.len();
    assert(le(t[c], t[p]));
    assert(t2[p] == t[c] && t2[c] == t[p]);
    // the sibling of `c`
    assert forall|k: int| 1 <= k < n && k != c && (k - 1) / 2 == p implies le(t[c], #[trigger] t[k]) by {
        assert(k != p);
        assert(ordered_at(t, le, k));
    }
    assert forall|k: int| 1 <= k < n && k != p && (k - 1) / 2 != p implies #[trigger] ordered_at(t2, le, k) by {
        if k == c {
        } else if (k - 1) / 2 == c {
            assert(t2[k] == t[k]);
        } else {
            assert(t2[k] == t[k]);
            assert((k - 1) / 2 != p);
            assert(t2[(k - 1) / 2] == t[(k - 1) / 2]);
            assert(ordered_at(t, le, k));
        }
    }
    if 2 * p + 1 < n {
        assert(ordered_at(t2, le, 2 * p + 1)) by {
            if 2 * p + 1 != c {
                assert(t2[2 * p + 1] == t[2 * p + 1]);
            }
        }
    }
    if 2 * p + 2 < n {
        assert(ordered_at(t2, le, 2 * p + 2)) by {
            if 2 * p + 2 != c {
                assert(t2[2 * p + 2] == t[2 * p + 2]);
            }
        }
    }
    if p > 0 {
        let g = (p - 1) / 2;
        assert(t2[g] == t[g]);
        assert(ordered_at(t, le, p));
        assert(le(t[g], t[p]));
        if 2 * p + 1 < n {
            if 2 * p + 1 != c {
                assert(t2[2 * p + 1] == t[2 * p + 1]);
                assert((2 * p + 1 - 1) / 2 == p);
                assert(ordered_at(t, le, 2 * p + 1));
            }
        }
        if 2 * p + 2 < n {
            if 2 * p + 2 != c {
                assert(t2[2 * p + 2] == t[2 * p + 2]);
                assert((2 * p + 2 - 1) / 2 == p);
                assert(ordered_at(t, le, 2 * p + 2));
            }
        }
    }
}

/// A task at least as urgent as its children stays, and the heap is in
/// order.
pub proof fn lemma_down_stay(t: Seq<Seq<u8>>, le: spec_fn(Seq<u8>, Seq<u8>) -> bool, c: int, d: Direction)
    requires
        session_ok(t, le, c, d),
        demotes(t.len() as int, c, d),
        0 <= c,
        2 * c + 1 < t.len() ==> le(t[c], t[2 * c + 1]),
        2 * c + 2 < t.len() ==> le(t[c], t[2 * c + 2]),
    ensures
        heap_ordered(t, le),
{
    assert forall|k: int| 1 <= k < t.len() implies #[trigger] ordered_at(t, le, k) by {
        if (k - 1) / 2 == c {
            assert(k == 2 * c + 1 || k == 2 * c + 2);
        }
    }
}

/// A task that a child outranks swaps with the more urgent child, and the
/// session goes on down from that child's place.
pub proof fn lemma_down_move(t: Seq<Seq<u8>>, le: spec_fn(Seq<u8>, Seq<u8>) -> bool, c: int, d: Direction, k: int, s: int)
    requires
        preference(le),
        session_ok(t, le, c, d),
        demotes(t.len() as int, c, d),
        0 <= c,
        k == 2 * c + 1 && s == 2 * c + 2 || k == 2 * c + 2 && s == 2 * c + 1,
        k < t.len(),
        le(t[k], t[c]),
        s < t.len() ==> le(t[k], t[s]),
    ensures
        session_ok(swapped(t, c, k), le, k, Direction::Demote),
{
    let t2 = swapped(t, c, k);
    let n = t.len();
    assert(t2[c] == t[k] && t2[k] == t[c]);
    assert forall|j: int| 1 <= j < n && j != k && (j - 1) / 2 != k implies #[trigger] ordered_at(t2, le, j) by {
        if j == c {
            assert(c >= 1);
            assert(t2[(c - 1) / 2] == t[(c - 1) / 2]);
        } else if j == s {
            assert(t2[s] == t[s]);
        } else if (j - 1) / 2 == c {
            assert(j == k || j == s);
        } else {
            assert(t2[j] == t[j]);
            assert(t2[(j - 1) / 2] == t[(j - 1) / 2]);
            assert(ordered_at(t, le, j));
        }
    }
    assert(ordered_at(t2, le, k));
    assert forall|j: int| 1 <= j < n && (j - 1) / 2 == k implies le(t[k], #[trigger] t2[j]) by {
        assert(j != c && j != k);
        assert(t2[j] == t[j]);
        assert((j - 1) / 2 != c);
        assert(ordered_at(t, le, j));
    }
    if 2 * k + 1 < n {
        assert((2 * k + 1 - 1) / 2 == k);
    }
    if 2 * k + 2 < n {
        assert((2 * k + 2 - 1) / 2 == k);
    }
}

/// A task added at the end of an ordered heap starts a session moving up.
pub proof fn lemma_add_session(t: Seq<Seq<u8>>, x: Seq<u8>, le: spec_fn(Seq<u8>, Seq<u8>) -> bool)
    requires
        heap_ordered(t, le),
    ensures
        session_ok(t.push(x), le, t.len() as int, Direction::Promote),
{
    let t2 = t.push(x);
    assert forall|k: int| 1 <= k < t2.len() && k != t.len() && (k - 1) / 2 != t.len() implies #[trigger] ordered_at(t2, le, k) by {
        assert(ordered_at(t, le, k));
        assert(t2[k] == t[k] && t2[(k - 1) / 2] == t[(k - 1) / 2]);
    }
}

/// Moving the last task of an ordered heap into the place `i` of a removed
/// one starts a session that settles it there (moving down only, at the
/// root or where the removed task was the last).
pub proof fn lemma_delete_session(t: Seq<Seq<u8>>, le: spec_fn(Seq<u8>, Seq<u8>) -> bool, i: int)
    requires
        preference(le),
        heap_ordered(t, le),
        0 <= i < t.len(),
    ensures
        session_ok(t.update(i, t.last()).drop_last(), le, i, Direction::Settle),
        !(0 < i < t.len() - 1) ==> session_ok(t.update(i, t.last()).drop_last(), le, i, Direction::Demote),
{
    let t2 = t.update(i, t.last()).drop_last();
    let n2 = t2.len();
    assert forall|k: int| 1 <= k < n2 && k != i && (k - 1) / 2 != i implies #[trigger] ordered_at(t2, le, k) by {
        assert(ordered_at(t, le, k));
        assert(t2[k] == t[k] && t2[(k - 1) / 2] == t[(k - 1) / 2]);
    }
    if i > 0 {
        let p = (i - 1) / 2;
        assert(ordered_at(t, le, i));
        assert(t2[p] == t[p]);
        if 2 * i + 1 < n2 {
            assert((2 * i + 1 - 1) / 2 == i);
            assert(ordered_at(t, le, 2 * i + 1));
            assert(t2[2 * i + 1] == t[2 * i + 1]);
        }
        if 2 * i + 2 < n2 {
            assert((2 * i + 2 - 1) / 2 == i);
            assert(ordered_at(t, le, 2 * i + 2));
            assert(t2[2 * i + 2] == t[2 * i + 2]);
        }
    }
}

/// Deferring the task next up of an ordered heap starts a session moving
/// it down.
pub proof fn lemma_defer_session(t: Seq<Seq<u8>>, le: spec_fn(Seq<u8>, Seq<u8>) -> bool)
    requires
        heap_ordered(t, le),
    ensures
        session_ok(t, le, 0, Direction::Demote),
{
}

} // verus!
