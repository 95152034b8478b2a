use lru_loader::recency::RecencyTracker;

#[test]
fn empty_tracker_has_no_oldest() {
    let t = RecencyTracker::new();
    assert_eq!(t.oldest(), None);
}

#[test]
fn touch_overwrites_record() {
    let mut t = RecencyTracker::new();
    t.touch(1, 5);
    t.touch(2, 7);
    assert_eq!(t.oldest(), Some(1));
    t.touch(1, 9);
    assert_eq!(t.oldest(), Some(2));
    assert!(t.contains(1));
}

#[test]
fn equal_times_pick_lowest_key() {
    let mut t = RecencyTracker::new();
    t.touch(9, 3);
    t.touch(4, 3);
    t.touch(6, 3);
    assert_eq!(t.oldest(), Some(4));
}

#[test]
fn remove_discards_record() {
    let mut t = RecencyTracker::new();
    t.touch(1, 1);
    t.touch(2, 2);
    t.remove(1);
    assert!(!t.contains(1));
    assert_eq!(t.oldest(), Some(2));
    t.remove(3);
    t.remove(2);
    assert_eq!(t.oldest(), None);
}
