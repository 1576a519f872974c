use nextup::error::Error;
use nextup::list::{left, parent, right, Direction, List};

fn says(e: &Error, words: &str) -> bool {
    matches!(e, Error::Message(m) if m == words)
}

fn tasks(list: &List) -> Vec<String> {
    let mut out = Vec::new();
    let mut i = 0;
    while let Some(t) = list.get(i) {
        out.push(t.to_string());
        i += 1;
    }
    out
}

#[test]
fn heap_index_arithmetic() {
    assert_eq!(parent(1), 0);
    assert_eq!(parent(2), 0);
    assert_eq!(parent(5), 2);
    assert_eq!(left(0), 1);
    assert_eq!(right(0), 2);
    assert_eq!(left(3), 7);
    assert_eq!(right(3), 8);
    for i in 0..50 {
        assert_eq!(parent(left(i)), i);
        assert_eq!(parent(right(i)), i);
    }
}

#[test]
fn add_then_get_reads_back() {
    let mut list = List::new();
    assert_eq!(list.nextup(), None);
    {
        let c = list.add("write report");
        assert_eq!(c.index, 0);
        assert_eq!(c.direction, Direction::Promote);
    }
    {
        let c = list.add("buy milk");
        assert_eq!(c.index, 1);
    }
    assert_eq!(list.get(0), Some("write report"));
    assert_eq!(list.get(1), Some("buy milk"));
    assert_eq!(list.get(2), None);
    assert_eq!(list.nextup(), Some("write report"));
}

#[test]
fn promote_swaps_with_parent() {
    let mut list = List::new();
    list.add("a");
    list.add("b");
    list.add("c");
    assert!(!list.promote(0));
    assert_eq!(tasks(&list), vec!["a", "b", "c"]);
    assert!(list.promote(2));
    assert_eq!(tasks(&list), vec!["c", "b", "a"]);
}

#[test]
fn ranking_a_new_task_to_the_top() {
    let mut list = List::new();
    list.add("a");
    list.add("b");
    let mut cursor = list.add("urgent");
    assert_eq!(cursor.strings(), Some(("a", "urgent", None)));
    assert_eq!(cursor.make_choice(1).unwrap(), true);
    assert_eq!(cursor.index, 0);
    assert_eq!(cursor.strings(), None);
    assert_eq!(list.nextup(), Some("urgent"));
    assert_eq!(tasks(&list), vec!["urgent", "b", "a"]);
}

#[test]
fn choosing_zero_keeps_the_task() {
    let mut list = List::new();
    list.add("a");
    let mut cursor = list.add("b");
    assert_eq!(cursor.make_choice(0).unwrap(), false);
    assert_eq!(cursor.index, 1);
    assert_eq!(tasks(&list), vec!["a", "b"]);
}

#[test]
fn invalid_choices_are_errors() {
    let mut list = List::new();
    list.add("a");
    let mut cursor = list.add("b");
    assert!(says(&cursor.make_choice(2).unwrap_err(), "Invalid choice"));
    assert!(says(&cursor.make_choice(7).unwrap_err(), "Invalid choice"));
    assert!(says(&cursor.make_choice(-1).unwrap_err(), "Invalid choice"));
    assert_eq!(tasks(&list), vec!["a", "b"]);
}

#[test]
fn defer_moves_the_top_down() {
    let mut list = List::new();
    list.add("a");
    list.add("b");
    list.add("c");
    let mut cursor = list.defer();
    assert_eq!(cursor.direction, Direction::Demote);
    assert_eq!(cursor.strings(), Some(("a", "b", Some("c"))));
    assert_eq!(cursor.make_choice(2).unwrap(), true);
    assert_eq!(cursor.index, 2);
    assert_eq!(cursor.strings(), None);
    assert_eq!(tasks(&list), vec!["c", "b", "a"]);

    let mut cursor = list.defer();
    assert_eq!(cursor.make_choice(1).unwrap(), true);
    assert_eq!(cursor.index, 1);
    assert_eq!(tasks(&list), vec!["b", "c", "a"]);
}

#[test]
fn delete_moves_last_into_place() {
    let mut list = List::new();
    list.add("a");
    list.add("b");
    list.add("c");
    list.add("d");
    {
        let cursor = list.delete(1).unwrap();
        assert_eq!(cursor.index, 1);
        assert_eq!(cursor.direction, Direction::Settle);
    }
    assert_eq!(tasks(&list), vec!["a", "d", "c"]);
    assert!(says(&list.delete(3).err().unwrap(), "index out of range"));
    assert_eq!(tasks(&list), vec!["a", "d", "c"]);
}

#[test]
fn complete_removes_the_top() {
    let mut list = List::new();
    assert!(says(&list.complete().err().unwrap(), "no tasks to complete"));
    list.add("a");
    list.add("b");
    list.add("c");
    {
        let mut cursor = list.complete().unwrap();
        assert_eq!(cursor.index, 0);
        assert_eq!(cursor.strings(), Some(("c", "b", None)));
        assert_eq!(cursor.make_choice(1).unwrap(), true);
    }
    assert_eq!(tasks(&list), vec!["b", "c"]);
}

#[test]
fn replace_changes_one_task() {
    let mut list = List::new();
    list.add("a");
    list.add("b");
    assert!(list.can_replace(1, "longer text"));
    list.replace(1, "longer text").unwrap();
    assert_eq!(tasks(&list), vec!["a", "longer text"]);
    list.replace(0, "z").unwrap();
    assert_eq!(tasks(&list), vec!["z", "longer text"]);
    assert!(says(&list.replace(2, "x").unwrap_err(), "index out of range"));
}

#[test]
fn deleted_space_is_reused() {
    let mut list = List::new();
    list.add("hello");
    list.add("world");
    let _ = list.delete(0);
    list.add("abc");
    assert_eq!(list.strings().data(), "abcloworld");
    assert_eq!(tasks(&list), vec!["world", "abc"]);
}

#[test]
fn iterator_walks_in_heap_order() {
    let mut list = List::new();
    list.add("a");
    list.add("b");
    let mut it = list.iter();
    assert_eq!(it.next(), Some("a"));
    assert_eq!(it.next(), Some("b"));
    assert_eq!(it.next(), None);
}

#[test]
fn from_tasks_and_pending_save() {
    let list = List::from_tasks(&vec!["one".to_string(), "two".to_string(), "drei ü".to_string()]);
    assert_eq!(tasks(&list), vec!["one", "two", "drei ü"]);
    assert_eq!(list.pending_save(), None);
    let mut list = list;
    list.add("four");
    assert_eq!(
        list.pending_save(),
        Some(vec!["one".to_string(), "two".to_string(), "drei ü".to_string(), "four".to_string()])
    );
}

#[test]
fn can_add_refuses_a_split_character() {
    let mut list = List::new();
    list.add("é");
    list.add("b");
    let _ = list.delete(0);
    assert!(!list.can_add("a"));
    assert!(list.can_add("ü"));
    assert!(list.can_add("longer"));
}

#[test]
fn empty_task_can_become_unreadable() {
    let mut list = List::new();
    list.add("abc");
    list.add("");
    list.add("de");
    let _ = list.delete(0);
    let _ = list.delete(0);
    assert_eq!(list.get(0), Some(""));
    assert!(list.can_add("xyé"));
    list.add("xyé");
    assert!(!list.can_get(0));
    assert!(list.can_get(1));
    assert_eq!(list.get(1), Some("xyé"));
    assert!(list.can_get(2));
}

#[test]
fn ranking_session_keeps_every_task() {
    let mut list = List::new();
    for t in ["a", "b", "c", "d", "e", "f", "g"] {
        list.add(t);
    }
    let mut before = tasks(&list);
    before.sort();
    {
        let mut cursor = list.defer();
        // down to the right, then down to the left, then stop
        assert_eq!(cursor.make_choice(2).unwrap(), true);
        assert_eq!(cursor.make_choice(1).unwrap(), true);
        assert_eq!(cursor.index, 5);
        assert_eq!(cursor.strings(), None);
    }
    {
        let mut cursor = list.add("h");
        while cursor.make_choice(1).unwrap() {}
        assert_eq!(cursor.index, 0);
    }
    assert_eq!(list.nextup(), Some("h"));
    let mut after = tasks(&list);
    after.sort();
    before.push("h".to_string());
    before.sort();
    assert_eq!(after, before);
}

#[test]
fn save_then_load_gives_the_same_tasks() {
    let mut list = List::new();
    for t in ["x", "yé", "z"] {
        list.add(t);
    }
    list.add("w").make_choice(1).unwrap();
    list.delete(1).unwrap();
    let saved = list.pending_save().unwrap();
    let loaded = List::from_tasks(&saved);
    assert_eq!(tasks(&loaded), tasks(&list));
    assert_eq!(loaded.pending_save(), None);
}

/// Answers every question of a session with the most urgent text shown,
/// where a smaller text is more urgent (the first shown on ties).
fn answer_by_order(cursor: &mut nextup::list::Cursor) -> usize {
    let mut questions = 0;
    loop {
        let choice = match cursor.strings() {
            None => break,
            Some((a, b, c)) => {
                let mut best = (a, 0);
                if b < best.0 {
                    best = (b, 1);
                }
                if let Some(c) = c {
                    if c < best.0 {
                        best = (c, 2);
                    }
                }
                best.1
            }
        };
        questions += 1;
        if !cursor.make_choice(choice).unwrap() {
            break;
        }
    }
    questions
}

fn heap_ordered(t: &[String]) -> bool {
    (1..t.len()).all(|k| t[(k - 1) / 2] <= t[k])
}

#[test]
fn delete_fills_the_gap_from_above() {
    let mut list = List::new();
    for t in ["1", "5", "2", "6", "7", "3"] {
        list.add(t);
    }
    assert!(heap_ordered(&tasks(&list)));
    {
        let mut cursor = list.delete(3).unwrap();
        assert_eq!(cursor.direction, Direction::Settle);
        assert_eq!(cursor.strings(), Some(("5", "3", None)));
        answer_by_order(&mut cursor);
    }
    let t = tasks(&list);
    assert_eq!(t, vec!["1", "3", "2", "5", "7"]);
    assert!(heap_ordered(&t));
}

#[test]
fn settling_task_that_stays_moves_down() {
    let mut list = List::new();
    for t in ["1", "2", "3", "4", "5", "6", "9"] {
        list.add(t);
    }
    let mut cursor = list.delete(1).unwrap();
    assert_eq!(cursor.direction, Direction::Settle);
    assert_eq!(cursor.strings(), Some(("1", "9", None)));
    assert_eq!(cursor.make_choice(0).unwrap(), true);
    assert_eq!(cursor.direction, Direction::Demote);
    assert_eq!(cursor.strings(), Some(("9", "4", Some("5"))));
    assert_eq!(cursor.make_choice(1).unwrap(), true);
    assert_eq!(cursor.index, 3);
    assert_eq!(cursor.strings(), None);
    let t = tasks(&list);
    assert_eq!(t, vec!["1", "4", "3", "9", "5", "6"]);
    assert!(heap_ordered(&t));
}

#[test]
fn sessions_answered_by_order_keep_the_heap_ordered() {
    let mut list = List::new();
    let words = ["m", "c", "x", "a", "q", "b", "z", "k", "d", "r", "e", "w", "f"];
    for (n, w) in words.iter().enumerate() {
        let asked = answer_by_order(&mut list.add(w));
        // no more questions than levels above the new task
        let levels = usize::BITS - 1 - (n + 1).leading_zeros();
        assert!(asked <= levels as usize);
        assert!(heap_ordered(&tasks(&list)));
    }
    assert_eq!(list.nextup(), Some("a"));
    for i in [5, 1, 7, 0, 3] {
        answer_by_order(&mut list.delete(i).unwrap());
        assert!(heap_ordered(&tasks(&list)));
    }
    answer_by_order(&mut list.complete().unwrap());
    let t = tasks(&list);
    assert!(heap_ordered(&t));
    assert_eq!(list.nextup(), t.iter().min().map(|s| s.as_str()));
}
