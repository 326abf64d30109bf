use olang::range_iter::RangeIter;

fn drain(mut it: RangeIter) -> Vec<i64> {
    let mut out = Vec::new();
    while let Some(v) = it.next() {
        out.push(v);
    }
    out
}

#[test]
fn exclusive_range_stops_before_end() {
    assert_eq!(drain(RangeIter::new(1, 4, false)), vec![1, 2, 3]);
}

#[test]
fn inclusive_range_reaches_end() {
    assert_eq!(drain(RangeIter::new(1, 4, true)), vec![1, 2, 3, 4]);
}

#[test]
fn empty_ranges_give_nothing() {
    assert!(drain(RangeIter::new(5, 5, false)).is_empty());
    assert!(drain(RangeIter::new(6, 5, true)).is_empty());
    assert!(drain(RangeIter::new(i64::MIN, i64::MIN, false)).is_empty());
}

#[test]
fn inclusive_range_to_max_does_not_overflow() {
    assert_eq!(drain(RangeIter::new(i64::MAX - 2, i64::MAX, true)), vec![i64::MAX - 2, i64::MAX - 1, i64::MAX]);
}

#[test]
fn exhausted_walk_stays_exhausted() {
    let mut it = RangeIter::new(0, 1, true);
    assert_eq!(it.next(), Some(0));
    assert_eq!(it.next(), Some(1));
    assert_eq!(it.next(), None);
    assert_eq!(it.next(), None);
}
