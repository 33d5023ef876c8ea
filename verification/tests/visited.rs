use freecell_search::visited::{Verdict, VisitedSet, ABANDON_THRESHOLD};

#[test]
fn registers_novel_and_repeat_keys() {
    let mut v = VisitedSet::new();
    assert_eq!(v.register(17), Verdict::Novel);
    assert_eq!(v.register(18), Verdict::Novel);
    assert_eq!(v.register(17), Verdict::Repeat);
    assert_eq!(v.len(), 2);
    assert!(!v.abandoned());
}

#[test]
fn abandonment_threshold_trips_and_sticks() {
    let mut v = VisitedSet::new();
    for key in 0..ABANDON_THRESHOLD as u64 {
        assert_eq!(v.register(key), Verdict::Novel);
    }
    assert!(!v.abandoned());
    // The registration that crosses the threshold abandons the session.
    assert_eq!(v.register(ABANDON_THRESHOLD as u64), Verdict::Abandon);
    assert!(v.abandoned());
    // From now on every registration reports a forced repeat, novel or
    // not, and the set stops growing.
    let len = v.len();
    assert_eq!(v.register(u64::MAX), Verdict::Abandon);
    assert_eq!(v.register(3), Verdict::Abandon);
    assert_eq!(v.len(), len);
    assert!(v.abandoned());
}
