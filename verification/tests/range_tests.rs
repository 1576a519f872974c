use nextup::range::{Range, Ranges};

#[test]
fn test_ranges() {
    let mut ranges = Ranges::new();

    // Try allocating ranges and expect consecutive spans.
    let range = match ranges.find(3) {
        Ok(range) => panic!("Expected new allocation, found {:?}", range),
        Err(range) => range,
    };
    assert_eq!(range.start, 0);
    assert_eq!(range.end, 3);
    assert_eq!(ranges.highest(), 3);
    let range = match ranges.find(5) {
        Ok(range) => panic!("Expected new allocation, found {:?}", range),
        Err(range) => range,
    };
    assert_eq!(range.start, 3);
    assert_eq!(range.end, 8);
    assert_eq!(ranges.highest(), 8);
    let range = match ranges.find(7) {
        Ok(range) => panic!("Expected new allocation, found {:?}", range),
        Err(range) => range,
    };
    assert_eq!(range.start, 8);
    assert_eq!(range.end, 15);
    assert_eq!(ranges.highest(), 15);

    // No free ranges should have been recorded.
    assert_eq!(ranges.len(), 0);

    // Try freeing a range
    ranges.free(Range::new(3, 8));
    assert_eq!(ranges.len(), 1);

    // Try re-allocating the same range
    // Expect the same range to be re-used.
    let range = match ranges.find(5) {
        Ok(range) => range,
        Err(range) => panic!("Expected re-use, found {:?}", range),
    };
    assert_eq!(range.start, 3);
    assert_eq!(range.end, 8);

    ranges.free(Range::new(3, 8));
    assert_eq!(ranges.len(), 1);

    // Try allocating a smaller range that fits most tightly
    // in the middle span.
    let range = match ranges.find(4) {
        Ok(range) => range,
        Err(range) => panic!("Expected re-use, found {:?}", range),
    };
    assert_eq!(range.start, 3);
    assert_eq!(range.end, 7);
    assert_eq!(ranges.len(), 1);

    // Try allocating the tiny remainder of that span.
    let range = match ranges.find(1) {
        Ok(range) => range,
        Err(range) => panic!("Expected re-use, found {:?}", range),
    };
    assert_eq!(range.start, 7);
    assert_eq!(range.end, 8);
    assert_eq!(ranges.len(), 0);

    // Try freeing up the first and last spans and
    // finding a new span that only fits in the last.
    ranges.free(Range::new(0, 3));
    ranges.free(Range::new(8, 15));
    let range = match ranges.find(6) {
        Ok(range) => range,
        Err(range) => panic!("Expected re-use, found {:?}", range),
    };
    assert_eq!(range.start, 8);
    assert_eq!(range.end, 14);
    assert_eq!(ranges.len(), 2);

    // Try freeing up the last span to make sure that
    // the free span extends the last span rather than
    // recording a new one.
    ranges.free(range);
    assert_eq!(ranges.len(), 2);

    // Try freeing up the middle span to make sure that
    // the two remaining spans are consolidated.
    ranges.free(Range::new(3, 8));
    assert_eq!(ranges.len(), 1);
}

#[test]
fn best_fit_prefers_the_smallest_then_the_first() {
    let mut ranges = Ranges::new();
    let _ = ranges.find(20);
    ranges.free(Range::new(0, 5));
    ranges.free(Range::new(7, 10));
    ranges.free(Range::new(12, 15));
    assert_eq!(ranges.best_fit_index(3), Some(1));
    assert_eq!(ranges.best_fit_index(4), Some(0));
    assert_eq!(ranges.best_fit_index(6), None);
    assert_eq!(ranges.find(3), Ok(Range::new(7, 10)));
    assert_eq!(ranges.len(), 2);
    assert_eq!(ranges.find(6), Err(Range::new(20, 26)));
    assert_eq!(ranges.highest(), 26);
}

#[test]
fn free_glues_neighbours() {
    let mut ranges = Ranges::new();
    let _ = ranges.find(30);
    ranges.free(Range::new(10, 15));
    ranges.free(Range::new(20, 25));
    assert_eq!(ranges.len(), 2);
    ranges.free(Range::new(5, 10));
    assert_eq!(ranges.get(0), Some(&Range::new(5, 15)));
    ranges.free(Range::new(25, 27));
    assert_eq!(ranges.get(1), Some(&Range::new(20, 27)));
    ranges.free(Range::new(15, 20));
    assert_eq!(ranges.len(), 1);
    assert_eq!(ranges.get(0), Some(&Range::new(5, 27)));
    for i in 1..ranges.len() {
        let (a, b) = (ranges.get(i - 1).unwrap(), ranges.get(i).unwrap());
        assert!(b.start > a.end && b.end <= ranges.highest());
    }
    assert!(ranges.get(0).unwrap().end <= ranges.highest());
    assert!(!ranges.is_empty());
}

#[test]
fn range_helpers() {
    let mut r = Range::new(3, 5);
    assert_eq!(r.len(), 2);
    assert!(!r.is_empty());
    assert!(r.is_extended_by(&Range::new(5, 9)));
    assert!(r.extends(&Range::new(1, 3)));
    assert!(!r.is_contiguous(&Range::new(6, 9)));
    assert!(r.maybe_extend(Some(&Range::new(5, 9))));
    assert_eq!(r, Range::new(3, 9));
    assert!(!r.maybe_extend(None));
    r.extend(&Range::new(0, 3));
    assert_eq!(r, Range::new(0, 9));
    assert_eq!(Range::default(), Range::new(0, 0));
    let copy = Ranges::default().copy();
    assert_eq!(copy.len(), 0);
}
