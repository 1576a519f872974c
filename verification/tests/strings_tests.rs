use nextup::strings::Strings;

#[test]
fn test_strings() {
    let mut strings = Strings::new();
    let range1 = strings.add("hello");
    let range2 = strings.add("world");
    assert_eq!(strings.get(range1), "hello");
    assert_eq!(strings.get(range2), "world");

    // The underlying data should have the words concatenated
    assert_eq!(strings.data(), "helloworld");

    // Freeing a range should not alter the data.
    strings.free(range1);
    assert_eq!(strings.data(), "helloworld");

    // Adding a new string that is longer than any freed
    // range should append to the end of the data.
    let range3 = strings.add("goodbye");
    assert_eq!(strings.get(range3), "goodbye");
    assert_eq!(strings.data(), "helloworldgoodbye");

    // Adding a new string that fits in a freed range
    // should replace the data in that range.
    let range4 = strings.add("cruel");
    assert_eq!(strings.get(range4), "cruel");
    assert_eq!(strings.data(), "cruelworldgoodbye");

    // Adding a shorter string should reuse the freed range.
    strings.free(range4);
    let range5 = strings.add("mean");
    assert_eq!(strings.get(range5), "mean");
    assert_eq!(strings.data(), "meanlworldgoodbye");

    // Old indexes should still work.
    assert_eq!(strings.get(range2), "world");
}

#[test]
fn add_reads_back_and_leaves_others() {
    let mut strings = Strings::new();
    let a = strings.add("alpha");
    let b = strings.add("β");
    assert_eq!((b.start, b.end), (5, 7));
    strings.free(a);
    let c = strings.add("xy");
    assert_eq!((c.start, c.end), (0, 2));
    assert_eq!(strings.get(c), "xy");
    assert_eq!(strings.get(b), "β");
    assert_eq!(strings.strlen(), 7);
    assert!(strings.can_get(b));
}

#[test]
fn split_characters_are_detected() {
    let mut strings = Strings::new();
    let e = strings.add("é");
    strings.add("b");
    strings.free(e);
    assert!(!strings.can_add("a"));
    assert!(strings.can_add("ü"));
    assert!(!strings.can_get(nextup::range::Range::new(1, 2)));
    assert!(strings.char_boundary(2));
    assert!(!strings.char_boundary(1));
    assert!(!strings.char_boundary(9));
}

#[test]
fn inspector_reports_stretches() {
    let mut strings = Strings::new();
    let a = strings.add("aa");
    strings.add("bb");
    let c = strings.add("cc");
    strings.add("dd");
    strings.free(a);
    strings.free(c);
    assert!(strings.can_inspect());
    let mut it = strings.iter();
    let mut seen = Vec::new();
    while let Some(e) = it.next() {
        seen.push((e.range.start, e.range.end, e.free, e.value.to_string()));
    }
    assert_eq!(
        seen,
        vec![
            (0, 2, true, "aa".to_string()),
            (2, 4, false, "bb".to_string()),
            (4, 6, true, "cc".to_string()),
            (6, 8, false, "dd".to_string()),
        ]
    );
}

#[test]
fn inspector_reports_a_buffer_without_free_spans() {
    let mut strings = Strings::new();
    strings.add("a");
    strings.add("b");
    let mut it = strings.iter();
    let e = it.next().unwrap();
    assert_eq!((e.range.start, e.range.end, e.free, e.value), (0, 2, false, "ab"));
    assert!(it.next().is_none());
    assert!(it.next().is_none());
    let empty = Strings::new();
    assert!(empty.iter().next().is_none());
}
