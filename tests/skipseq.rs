use ticket_scan::skipseq::SkipSeq;

#[test]
fn fresh_sequence_counts_up_from_start() {
    let mut s = SkipSeq::new(1);
    assert_eq!(s.peek(), 1);
    assert_eq!(s.next(), 1);
    assert_eq!(s.next(), 2);
    assert_eq!(s.next(), 3);
    assert_eq!(s.peek(), 4);
}

#[test]
fn with_capacity_starts_at_start() {
    let mut s = SkipSeq::with_capacity(7, 16);
    assert_eq!(s.next(), 7);
    assert_eq!(s.next(), 8);
}

#[test]
fn skipped_ids_are_never_issued() {
    let mut s = SkipSeq::new(1);
    assert!(s.skip(2));
    assert!(s.skip(3));
    assert!(s.skip(5));
    assert_eq!(s.next(), 1);
    assert_eq!(s.next(), 4);
    assert_eq!(s.next(), 6);
    assert_eq!(s.next(), 7);
}

#[test]
fn skip_of_the_next_id() {
    let mut s = SkipSeq::new(0);
    assert!(s.skip(0));
    assert_eq!(s.peek(), 0);
    assert_eq!(s.next(), 1);
}

#[test]
fn far_future_skip_grows_storage() {
    let mut s = SkipSeq::with_capacity(1, 2);
    assert!(s.skip(1000));
    for expected in 1..1000 {
        assert_eq!(s.next(), expected);
    }
    assert_eq!(s.next(), 1001);
}

#[test]
fn skip_behind_cursor_is_rejected_and_changes_nothing() {
    let mut s = SkipSeq::new(1);
    assert_eq!(s.next(), 1);
    assert_eq!(s.next(), 2);
    assert!(s.skip(4));
    let before = s.clone();
    assert!(!s.skip(1));
    assert!(!s.skip(2));
    assert_eq!(s, before);
    assert_eq!(s.next(), 3);
    assert_eq!(s.next(), 5);
}

#[test]
fn skip_twice_is_accepted() {
    let mut s = SkipSeq::new(1);
    assert!(s.skip(2));
    let once = s.clone();
    assert!(s.skip(2));
    assert_eq!(s, once);
    assert_eq!(s.next(), 1);
    assert_eq!(s.next(), 3);
}

#[test]
fn init_takes_marks_at_or_beyond_offset() {
    let mut s = SkipSeq::init(2, vec![false, true, false, true, true, false]);
    assert_eq!(s.peek(), 2);
    assert_eq!(s.next(), 2);
    assert_eq!(s.next(), 5);
    assert_eq!(s.next(), 6);
}

#[test]
fn next_within_stops_past_the_limit() {
    let mut s = SkipSeq::new(1);
    assert!(s.skip(3));
    assert_eq!(s.next_within(3), Some(1));
    assert_eq!(s.next_within(3), Some(2));
    let before = s.clone();
    assert_eq!(s.next_within(3), None);
    assert_eq!(s, before);
    assert_eq!(s.next_within(4), Some(4));
}

#[test]
fn next_within_at_the_largest_id() {
    let mut s = SkipSeq::new(usize::MAX - 1);
    assert_eq!(s.next_within(usize::MAX), Some(usize::MAX - 1));
    assert_eq!(s.next_within(usize::MAX), None);
}
