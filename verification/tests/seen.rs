use puzzles::seen::Seen;

#[test]
fn inserting_twice_reports_the_second_as_seen() {
    let mut s = Seen::new(130);
    assert_eq!(s.len(), 0);
    assert!(!s.contains(129));
    assert!(s.insert(129));
    assert!(s.contains(129));
    assert!(!s.insert(129));
    assert!(s.insert(0));
    assert!(s.insert(64));
    assert_eq!(s.len(), 3);
    let t = s.copy();
    assert!(t.contains(64));
    assert!(!t.contains(63));
    assert_eq!(t.len(), 3);
}
